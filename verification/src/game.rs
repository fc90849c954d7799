//! The state of the assistant's table and the rules by which its buttons
//! change it: a card-counting helper that records the cards the user sees,
//! and a simulated game against a dealer that deals random cards from one
//! deck.

use vstd::prelude::*;
use crate::hand::{names, hand_value, hand_fits, hand_total, lemma_push, hand_room,
    lemma_card_score_range, lemma_hand_nonneg, lemma_names_push};
use crate::odds::{Fraction, seq_total, zero_chance, bust_count, blackjack_count,
    next_blackjack_defined, probability_busting, probability_next_blackjack, next_blackjack_in_range,
    bust_defined, bust_in_range};
use crate::dealer::{dealer_scaled, draw_budget, falling, outcome_values, counts_nonneg,
    lemma_nonneg_sums_fit, probability_dealer_outcomes};
use crate::draw::{all_dealt, valid_dealt, player_turn, rank_name, suit_name, card_id_text, no_card_value, no_card_id,
    fresh, rank_free, suit_free, free_cards, lemma_record_card, lemma_record_free_cards, rank_name_string,
    suit_name_string, card_id};

verus! {

broadcast use vstd::seq_lib::lemma_seq_contains_after_push;

/// Which outcome windows of the simulated game are open.
#[derive(Clone, Copy, Debug, PartialEq, Eq, Structural)]
pub struct SimulatorStats {
    pub player_wins: bool,
    pub dealer_wins: bool,
    pub player_bust: bool,
    pub dealer_bust: bool,
    pub player_dealer_tie: bool,
    pub natural_blackjack: bool,
    pub out_of_cards: bool,
}

impl SimulatorStats {
    pub open spec fn none() -> SimulatorStats {
        SimulatorStats {
            player_wins: false,
            dealer_wins: false,
            player_bust: false,
            dealer_bust: false,
            player_dealer_tie: false,
            natural_blackjack: false,
            out_of_cards: false,
        }
    }
}

impl Default for SimulatorStats {
    fn default() -> (stats: Self)
        ensures
            stats == SimulatorStats::none(),
    {
        SimulatorStats {
            player_wins: false,
            dealer_wins: false,
            player_bust: false,
            dealer_bust: false,
            player_dealer_tie: false,
            natural_blackjack: false,
            out_of_cards: false,
        }
    }
}

/// One draw from the deck: the card's suit and rank indices, and whether
/// the deck counted as out of cards (then no card was taken).
#[derive(Clone, Copy, Debug, PartialEq, Eq, Structural)]
pub struct Drawn {
    pub suit: i32,
    pub rank: i32,
    pub out_of_cards: bool,
}

/// What the displayed chances are to become after a button.
#[derive(Clone, Copy, Debug, PartialEq, Eq, Structural)]
pub enum OddsRefresh {
    /// They stay as they are.
    Unchanged,
    /// They are all reset to zero.
    Cleared,
    /// They are computed anew from the table (see `GameTable::odds`).
    Recomputed,
}

/// The outcome windows of the simulated game.
#[derive(Clone, Copy, Debug, PartialEq, Eq, Structural)]
pub enum Outcome {
    PlayerWins,
    DealerWins,
    PlayerBust,
    DealerBust,
    Tie,
    Blackjack,
}

/// The cards dealt by a button of the simulated game, in the order they
/// were drawn, and what becomes of the displayed chances.
pub struct RoundReport {
    pub player_draws: Vec<Drawn>,
    pub dealer_draws: Vec<Drawn>,
    pub odds: OddsRefresh,
}

/// The names of the cards that draws took, in order.
pub open spec fn dealt_names(draws: Seq<Drawn>) -> Seq<Seq<char>>
    decreases draws.len(),
{
    if draws.len() == 0 {
        Seq::empty()
    } else if draws.last().out_of_cards {
        dealt_names(draws.drop_last())
    } else {
        dealt_names(draws.drop_last()).push(rank_name(draws.last().rank as int))
    }
}

/// The ids of the cards that draws took, in order.
pub open spec fn dealt_ids(draws: Seq<Drawn>) -> Seq<Seq<char>>
    decreases draws.len(),
{
    if draws.len() == 0 {
        Seq::empty()
    } else if draws.last().out_of_cards {
        dealt_ids(draws.drop_last())
    } else {
        dealt_ids(draws.drop_last()).push(
            card_id_text(rank_name(draws.last().rank as int), suit_name(draws.last().suit as int)),
        )
    }
}

/// The (suit, rank) pairs of the cards that draws took, in order.
pub open spec fn dealt_cards(draws: Seq<Drawn>) -> Seq<(i32, i32)>
    decreases draws.len(),
{
    if draws.len() == 0 {
        Seq::empty()
    } else if draws.last().out_of_cards {
        dealt_cards(draws.drop_last())
    } else {
        dealt_cards(draws.drop_last()).push((draws.last().suit, draws.last().rank))
    }
}

/// Every card that the draws took was free when it was taken.
pub open spec fn draws_fresh(dealt: Seq<(i32, i32)>, draws: Seq<Drawn>) -> bool
    decreases draws.len(),
{
    if draws.len() == 0 {
        true
    } else {
        &&& draws_fresh(dealt, draws.drop_last())
        &&& 0 <= draws.last().suit < 4
        &&& 0 <= draws.last().rank < 13
        &&& draws.last().out_of_cards == all_dealt(dealt + dealt_cards(draws.drop_last()))
        &&& (!draws.last().out_of_cards ==> fresh(
            dealt + dealt_cards(draws.drop_last()),
            (draws.last().suit, draws.last().rank),
        ))
    }
}

/// The counts of remaining cards after the draws took their cards.
pub open spec fn take_counts(remaining: Seq<i32>, draws: Seq<Drawn>) -> Seq<i32>
    decreases draws.len(),
{
    if draws.len() == 0 {
        remaining
    } else if draws.last().out_of_cards {
        take_counts(remaining, draws.drop_last())
    } else {
        let before = take_counts(remaining, draws.drop_last());
        let r = draws.last().rank as int;
        before.update(r, (before[r] - 1) as i32)
    }
}

/// Some draw found the deck out of cards.
pub open spec fn some_out(draws: Seq<Drawn>) -> bool {
    exists|k: int| 0 <= k < draws.len() && (#[trigger] draws[k]).out_of_cards
}

/// Some draw took a card.
pub open spec fn some_card(draws: Seq<Drawn>) -> bool {
    exists|k: int| 0 <= k < draws.len() && !(#[trigger] draws[k]).out_of_cards
}

/// A full deck of one suit-set per deck for each of the thirteen ranks.
pub open spec fn full_counts(decks: i32) -> Seq<i32> {
    Seq::new(13, |i: int| (4 * decks) as i32)
}


/// The exact chances shown for the table.
#[derive(Clone, Copy, Debug, PartialEq, Eq, Structural)]
pub struct TableOdds {
    pub dealer_wins: Fraction,
    pub tie: Fraction,
    pub bust: Fraction,
    pub next_blackjack: Fraction,
}

/// The table: which screen is shown, the card choices of the counting
/// helper, both hands (card names and picture ids), their totals, the
/// count of remaining cards per rank, the cards the simulator has dealt,
/// and the open outcome windows.
pub struct GameTable {
    pub start_screen: bool,
    pub game_sim: bool,
    pub card_counter: bool,
    pub secret_pop: bool,
    /// 0 for the dealer, 1 for player 1; `None` before a choice.
    pub selected_player: Option<usize>,
    /// An index into hearts, spades, diamonds, clubs.
    pub selected_suit: Option<usize>,
    /// An index into 2, 3, ..., 10, jack, queen, king, ace.
    pub selected_number: Option<usize>,
    pub recorded_cards_dealer: Vec<String>,
    pub recorded_cards_player1: Vec<String>,
    pub dealer_card_ids: Vec<String>,
    pub player1_card_ids: Vec<String>,
    pub player1_hand_total: i32,
    pub dealer_hand_total: i32,
    pub number_of_decks: i32,
    pub cards_remaining: Vec<i32>,
    pub forbidden_cards_sim: Vec<(i32, i32)>,
    pub stats: SimulatorStats,
}

/// `id` is the picture id of the card named `card` in one of the suits.
pub open spec fn names_card(id: Seq<char>, card: Seq<char>) -> bool {
    exists|s: int| 0 <= s < 4 && id == #[trigger] card_id_text(card, suit_name(s))
}

/// Each id names the card at the same place of the hand.
pub open spec fn ids_name_cards(cards: Seq<Seq<char>>, ids: Seq<Seq<char>>) -> bool {
    &&& cards.len() == ids.len()
    &&& forall|i: int| 0 <= i < ids.len() ==> #[trigger] names_card(ids[i], cards[i])
}

proof fn lemma_ids_push(cards: Seq<Seq<char>>, ids: Seq<Seq<char>>, card: Seq<char>, s: int)
    requires
        ids_name_cards(cards, ids),
        0 <= s < 4,
    ensures
        ids_name_cards(cards.push(card), ids.push(card_id_text(card, suit_name(s)))),
{
    let c2 = cards.push(card);
    let i2 = ids.push(card_id_text(card, suit_name(s)));
    assert forall|i: int| 0 <= i < i2.len() implies #[trigger] names_card(i2[i], c2[i]) by {
        if i < ids.len() {
            assert(i2[i] == ids[i] && c2[i] == cards[i]);
        } else {
            assert(i2[i] == card_id_text(card, suit_name(s)));
        }
    }
}

/// The hand of the player (`true`) or of the dealer.
pub open spec fn seat_cards(t: GameTable, player: bool) -> Seq<String> {
    if player {
        t.recorded_cards_player1@
    } else {
        t.recorded_cards_dealer@
    }
}

/// The card ids of the player (`true`) or of the dealer.
pub open spec fn seat_ids(t: GameTable, player: bool) -> Seq<String> {
    if player {
        t.player1_card_ids@
    } else {
        t.dealer_card_ids@
    }
}

/// The hand total of the player (`true`) or of the dealer.
pub open spec fn seat_total(t: GameTable, player: bool) -> i32 {
    if player {
        t.player1_hand_total
    } else {
        t.dealer_hand_total
    }
}

/// The screens and choices of two tables agree.
pub open spec fn same_screens(a: GameTable, b: GameTable) -> bool {
    &&& a.start_screen == b.start_screen
    &&& a.game_sim == b.game_sim
    &&& a.card_counter == b.card_counter
    &&& a.secret_pop == b.secret_pop
    &&& a.selected_player == b.selected_player
    &&& a.selected_suit == b.selected_suit
    &&& a.selected_number == b.selected_number
    &&& a.number_of_decks == b.number_of_decks
}

/// The outcome windows of two tables agree, apart from out-of-cards.
pub open spec fn same_outcomes(a: SimulatorStats, b: SimulatorStats) -> bool {
    &&& a.player_wins == b.player_wins
    &&& a.dealer_wins == b.dealer_wins
    &&& a.player_bust == b.player_bust
    &&& a.dealer_bust == b.dealer_bust
    &&& a.player_dealer_tie == b.player_dealer_tie
    &&& a.natural_blackjack == b.natural_blackjack
}

impl GameTable {
    /// The table's invariant. One deck; per rank, the cards counted as
    /// remaining are exactly the undealt cards of that rank; the `i`-th id
    /// of a hand names its `i`-th card; at most one of the two modes is
    /// shown, and one of them is whenever the start screen is hidden;
    /// totals not negative; choices within their lists.
    pub open spec fn wf(&self) -> bool {
        &&& self.number_of_decks == 1
        &&& self.cards_remaining@.len() == 13
        &&& valid_dealt(self.forbidden_cards_sim@)
        &&& forall|r: int|
            0 <= r < 13 ==> #[trigger] self.cards_remaining@[r] == rank_free(
                self.forbidden_cards_sim@,
                r,
            )
        &&& ids_name_cards(names(self.recorded_cards_dealer@), names(self.dealer_card_ids@))
        &&& ids_name_cards(names(self.recorded_cards_player1@), names(self.player1_card_ids@))
        &&& !(self.game_sim && self.card_counter)
        &&& (self.start_screen || self.game_sim || self.card_counter)
        &&& 0 <= self.player1_hand_total
        &&& 0 <= self.dealer_hand_total
        &&& (self.selected_player matches Some(i) ==> i < 2)
        &&& (self.selected_suit matches Some(i) ==> i < 4)
        &&& (self.selected_number matches Some(i) ==> i < 13)
    }

    /// A new table: the start screen, nothing chosen, empty hands, a full
    /// deck of one set of cards.
    pub fn new() -> (table: Self)
        ensures
            table.wf(),
            table.start_screen,
            !table.game_sim,
            !table.card_counter,
            !table.secret_pop,
            table.selected_player is None,
            table.selected_suit is None,
            table.selected_number is None,
            table.recorded_cards_dealer@.len() == 0,
            table.recorded_cards_player1@.len() == 0,
            table.dealer_card_ids@.len() == 0,
            table.player1_card_ids@.len() == 0,
            table.player1_hand_total == 0,
            table.dealer_hand_total == 0,
            table.cards_remaining@ == full_counts(1),
            table.forbidden_cards_sim@.len() == 0,
            table.stats == SimulatorStats::none(),
    {
        let number_of_decks: i32 = 1;
        let table = GameTable {
            start_screen: true,
            game_sim: false,
            card_counter: false,
            secret_pop: false,
            selected_player: None,
            selected_suit: None,
            selected_number: None,
            recorded_cards_dealer: Vec::new(),
            recorded_cards_player1: Vec::new(),
            dealer_card_ids: Vec::new(),
            player1_card_ids: Vec::new(),
            player1_hand_total: 0,
            dealer_hand_total: 0,
            number_of_decks,
            cards_remaining: fresh_deck(number_of_decks),
            forbidden_cards_sim: Vec::new(),
            stats: SimulatorStats::default(),
        };
        proof {
            lemma_nothing_dealt(table.forbidden_cards_sim@);
        }
        table
    }
}

impl GameTable {
    /// Draws a card for the player (`to_player`) or the dealer. A card taken
    /// is recorded as dealt, counted off the remaining cards, and added to
    /// the hand, whose total is counted again. A deck out of cards (every
    /// card dealt) changes nothing but, when `flag_empty`, opens the
    /// out-of-cards window.
    #[verifier::rlimit(60)]
    fn deal(&mut self, to_player: bool, flag_empty: bool) -> (drawn: Drawn)
        requires
            old(self).wf(),
            !all_dealt(old(self).forbidden_cards_sim@) ==> hand_room(
                names(seat_cards(*old(self), to_player)),
                1,
            ),
        ensures
            final(self).wf(),
            same_screens(*old(self), *final(self)),
            same_outcomes(old(self).stats, final(self).stats),
            seat_cards(*final(self), !to_player) == seat_cards(*old(self), !to_player),
            seat_ids(*final(self), !to_player) == seat_ids(*old(self), !to_player),
            seat_total(*final(self), !to_player) == seat_total(*old(self), !to_player),
            0 <= drawn.suit < 4,
            0 <= drawn.rank < 13,
            drawn.out_of_cards == all_dealt(old(self).forbidden_cards_sim@),
            drawn.out_of_cards ==> {
                &&& final(self).stats.out_of_cards == (old(self).stats.out_of_cards || flag_empty)
                &&& final(self).forbidden_cards_sim@ == old(self).forbidden_cards_sim@
                &&& final(self).cards_remaining@ == old(self).cards_remaining@
                &&& seat_cards(*final(self), to_player) == seat_cards(*old(self), to_player)
                &&& seat_ids(*final(self), to_player) == seat_ids(*old(self), to_player)
                &&& seat_total(*final(self), to_player) == seat_total(*old(self), to_player)
            },
            !drawn.out_of_cards ==> {
                let card = (drawn.suit, drawn.rank);
                let r = drawn.rank as int;
                &&& fresh(old(self).forbidden_cards_sim@, card)
                &&& final(self).stats.out_of_cards == old(self).stats.out_of_cards
                &&& final(self).forbidden_cards_sim@ == old(self).forbidden_cards_sim@.push(card)
                &&& final(self).cards_remaining@ == old(self).cards_remaining@.update(
                    r,
                    (old(self).cards_remaining@[r] - 1) as i32,
                )
                &&& names(seat_cards(*final(self), to_player)) == names(
                    seat_cards(*old(self), to_player),
                ).push(rank_name(r))
                &&& names(seat_ids(*final(self), to_player)) == names(
                    seat_ids(*old(self), to_player),
                ).push(card_id_text(rank_name(r), suit_name(drawn.suit as int)))
                &&& seat_total(*final(self), to_player) == hand_value(
                    names(seat_cards(*final(self), to_player)),
                )
            },
    {
        let (card_id, card_value, suit, rank, out_of_cards) = player_turn(
            copy_dealt(&self.forbidden_cards_sim),
        );
        if !out_of_cards {
            let ghost before = self.forbidden_cards_sim@;
            self.forbidden_cards_sim.push((suit, rank));
            proof {
                crate::draw::lemma_valid_push(before, (suit, rank));
                lemma_record_card(before, (suit, rank), rank as int);
                lemma_record_card(self.forbidden_cards_sim@, (suit, rank), rank as int);
                assert forall|r: int| 0 <= r < 13 && r != rank implies rank_free(
                    self.forbidden_cards_sim@,
                    r,
                ) == rank_free(before, r) by {
                    lemma_record_card(before, (suit, rank), r);
                }
            }
            let left = self.cards_remaining[rank as usize];
            self.cards_remaining.set(rank as usize, left - 1);
            let ghost old_hand = if to_player {
                self.recorded_cards_player1@
            } else {
                self.recorded_cards_dealer@
            };
            let ghost old_ids = if to_player {
                self.player1_card_ids@
            } else {
                self.dealer_card_ids@
            };
            proof {
                lemma_names_push(old_hand, card_value);
                lemma_push(names(old_hand), card_value@);
                lemma_card_score_range(card_value@);
                lemma_hand_nonneg(names(old_hand.push(card_value)));
                lemma_names_push(old_ids, card_id);
                lemma_ids_push(names(old_hand), names(old_ids), card_value@, suit as int);
            }
            if to_player {
                proof {
                    lemma_names_push(self.player1_card_ids@, card_id);
                }
                self.player1_card_ids.push(card_id);
                self.recorded_cards_player1.push(card_value);
                self.player1_hand_total = hand_total(self.recorded_cards_player1.clone());
            } else {
                proof {
                    lemma_names_push(self.dealer_card_ids@, card_id);
                }
                self.dealer_card_ids.push(card_id);
                self.recorded_cards_dealer.push(card_value);
                self.dealer_hand_total = hand_total(self.recorded_cards_dealer.clone());
            }
            proof {
                assert(fresh(before, (suit, rank)));
                assert(names(seat_cards(*self, to_player)) == names(old_hand).push(
                    rank_name(rank as int),
                ));
                assert(forall|r: int|
                    0 <= r < 13 ==> #[trigger] self.cards_remaining@[r] == rank_free(
                        self.forbidden_cards_sim@,
                        r,
                    ));
            }
        } else if flag_empty {
            self.stats.out_of_cards = true;
        }
        Drawn { suit, rank, out_of_cards }
    }
}

/// With no card dealt, every rank has its four cards and the deck is not
/// out of cards.
proof fn lemma_nothing_dealt(dealt: Seq<(i32, i32)>)
    requires
        dealt.len() == 0,
    ensures
        forall|r: int| 0 <= r < 13 ==> #[trigger] rank_free(dealt, r) == 4,
        !all_dealt(dealt),
{
    assert(!dealt.contains((0i32, 0i32)));
}

/// How the accounts of a list of draws grow by one more draw.
pub proof fn lemma_draws_push(dealt: Seq<(i32, i32)>, remaining: Seq<i32>, draws: Seq<Drawn>, d: Drawn)
    ensures
        dealt_names(draws.push(d)) == if d.out_of_cards {
            dealt_names(draws)
        } else {
            dealt_names(draws).push(rank_name(d.rank as int))
        },
        dealt_ids(draws.push(d)) == if d.out_of_cards {
            dealt_ids(draws)
        } else {
            dealt_ids(draws).push(card_id_text(rank_name(d.rank as int), suit_name(d.suit as int)))
        },
        dealt_cards(draws.push(d)) == if d.out_of_cards {
            dealt_cards(draws)
        } else {
            dealt_cards(draws).push((d.suit, d.rank))
        },
        take_counts(remaining, draws.push(d)) == if d.out_of_cards {
            take_counts(remaining, draws)
        } else {
            take_counts(remaining, draws).update(
                d.rank as int,
                (take_counts(remaining, draws)[d.rank as int] - 1) as i32,
            )
        },
        draws_fresh(dealt, draws.push(d)) == (draws_fresh(dealt, draws) && 0 <= d.suit < 4 && 0
            <= d.rank < 13 && d.out_of_cards == all_dealt(dealt + dealt_cards(draws)) && (!d.out_of_cards ==> fresh(
            dealt + dealt_cards(draws),
            (d.suit, d.rank),
        ))),
        some_out(draws.push(d)) == (some_out(draws) || d.out_of_cards),
        some_card(draws.push(d)) == (some_card(draws) || !d.out_of_cards),
{
    let e = draws.push(d);
    assert(e.drop_last() =~= draws);
    assert(e.last() == d);
    if some_out(e) {
        let k = choose|k: int| 0 <= k < e.len() && (#[trigger] e[k]).out_of_cards;
        if k < draws.len() {
            assert(draws[k] == e[k]);
        }
    }
    if some_out(draws) {
        let k = choose|k: int| 0 <= k < draws.len() && (#[trigger] draws[k]).out_of_cards;
        assert(e[k] == draws[k]);
    }
    if d.out_of_cards {
        assert(e[draws.len() as int] == d);
    }
    if some_card(e) {
        let k = choose|k: int| 0 <= k < e.len() && !(#[trigger] e[k]).out_of_cards;
        if k < draws.len() {
            assert(draws[k] == e[k]);
        }
    }
    if some_card(draws) {
        let k = choose|k: int| 0 <= k < draws.len() && !(#[trigger] draws[k]).out_of_cards;
        assert(e[k] == draws[k]);
    }
    if !d.out_of_cards {
        assert(e[draws.len() as int] == d);
    }
}

/// The accounts of no draws.
pub proof fn lemma_draws_empty(dealt: Seq<(i32, i32)>, remaining: Seq<i32>)
    ensures
        dealt_names(Seq::<Drawn>::empty()) == Seq::<Seq<char>>::empty(),
        dealt_ids(Seq::<Drawn>::empty()) == Seq::<Seq<char>>::empty(),
        dealt_cards(Seq::<Drawn>::empty()) == Seq::<(i32, i32)>::empty(),
        take_counts(remaining, Seq::<Drawn>::empty()) == remaining,
        draws_fresh(dealt, Seq::<Drawn>::empty()),
        !some_out(Seq::<Drawn>::empty()),
        !some_card(Seq::<Drawn>::empty()),
{
}

/// Room for `extra + 1` cards leaves room for `extra` more after any card.
proof fn lemma_room_push(hand: Seq<Seq<char>>, card: Seq<char>, extra: int)
    requires
        hand_room(hand, extra + 1),
        extra >= 0,
    ensures
        hand_room(hand.push(card), extra),
{
    lemma_push(hand, card);
    lemma_card_score_range(card);
}

impl GameTable {
    /// Deals `count` cards to the player (`to_player`) or the dealer, one
    /// `deal` after another.
    fn deal_many(&mut self, to_player: bool, flag_empty: bool, count: usize) -> (draws: Vec<Drawn>)
        requires
            old(self).wf(),
            hand_room(names(seat_cards(*old(self), to_player)), count as int),
        ensures
            final(self).wf(),
            same_screens(*old(self), *final(self)),
            same_outcomes(old(self).stats, final(self).stats),
            draws@.len() == count,
            seat_cards(*final(self), !to_player) == seat_cards(*old(self), !to_player),
            seat_ids(*final(self), !to_player) == seat_ids(*old(self), !to_player),
            seat_total(*final(self), !to_player) == seat_total(*old(self), !to_player),
            names(seat_cards(*final(self), to_player)) == names(seat_cards(*old(self), to_player))
                + dealt_names(draws@),
            names(seat_ids(*final(self), to_player)) == names(seat_ids(*old(self), to_player))
                + dealt_ids(draws@),
            final(self).forbidden_cards_sim@ == old(self).forbidden_cards_sim@ + dealt_cards(draws@),
            draws_fresh(old(self).forbidden_cards_sim@, draws@),
            final(self).cards_remaining@ == take_counts(old(self).cards_remaining@, draws@),
            seat_total(*final(self), to_player) == if some_card(draws@) {
                hand_value(names(seat_cards(*final(self), to_player)))
            } else {
                seat_total(*old(self), to_player) as int
            },
            final(self).stats.out_of_cards == (old(self).stats.out_of_cards || (flag_empty
                && some_out(draws@))),
    {
        let ghost start = *self;
        let mut draws: Vec<Drawn> = Vec::new();
        proof {
            lemma_draws_empty(start.forbidden_cards_sim@, start.cards_remaining@);
            assert(names(seat_cards(start, to_player)) + dealt_names(draws@) =~= names(
                seat_cards(start, to_player),
            ));
            assert(names(seat_ids(start, to_player)) + dealt_ids(draws@) =~= names(
                seat_ids(start, to_player),
            ));
            assert(start.forbidden_cards_sim@ + dealt_cards(draws@) =~= start.forbidden_cards_sim@);
        }
        let mut k: usize = 0;
        while k < count
            invariant
                0 <= k <= count,
                draws@.len() == k,
                self.wf(),
                same_screens(start, *self),
                same_outcomes(start.stats, self.stats),
                hand_room(names(seat_cards(*self, to_player)), (count - k) as int),
                seat_cards(*self, !to_player) == seat_cards(start, !to_player),
                seat_ids(*self, !to_player) == seat_ids(start, !to_player),
                seat_total(*self, !to_player) == seat_total(start, !to_player),
                names(seat_cards(*self, to_player)) == names(seat_cards(start, to_player))
                    + dealt_names(draws@),
                names(seat_ids(*self, to_player)) == names(seat_ids(start, to_player)) + dealt_ids(
                    draws@,
                ),
                self.forbidden_cards_sim@ == start.forbidden_cards_sim@ + dealt_cards(draws@),
                draws_fresh(start.forbidden_cards_sim@, draws@),
                self.cards_remaining@ == take_counts(start.cards_remaining@, draws@),
                seat_total(*self, to_player) == if some_card(draws@) {
                    hand_value(names(seat_cards(*self, to_player)))
                } else {
                    seat_total(start, to_player) as int
                },
                self.stats.out_of_cards == (start.stats.out_of_cards || (flag_empty && some_out(
                    draws@,
                ))),
            decreases count - k,
        {
            let ghost before = *self;
            proof {
                assert(hand_room(names(seat_cards(before, to_player)), 1));
            }
            let d = self.deal(to_player, flag_empty);
            proof {
                lemma_draws_push(start.forbidden_cards_sim@, start.cards_remaining@, draws@, d);
                if !d.out_of_cards {
                    let h = seat_cards(before, to_player);
                    let c = seat_cards(*self, to_player);
                    assert(c.len() == h.len() + 1);
                    assert(names(c) == names(h).push(rank_name(d.rank as int)));
                    lemma_room_push(names(h), rank_name(d.rank as int), (count - k - 1) as int);
                }
            }
            draws.push(d);
            proof {
                assert(names(seat_cards(start, to_player)) + dealt_names(draws@) =~= if d.out_of_cards {
                    names(seat_cards(start, to_player)) + dealt_names(draws@.drop_last())
                } else {
                    (names(seat_cards(start, to_player)) + dealt_names(draws@.drop_last())).push(
                        rank_name(d.rank as int),
                    )
                });
                assert(names(seat_ids(start, to_player)) + dealt_ids(draws@) =~= if d.out_of_cards {
                    names(seat_ids(start, to_player)) + dealt_ids(draws@.drop_last())
                } else {
                    (names(seat_ids(start, to_player)) + dealt_ids(draws@.drop_last())).push(
                        card_id_text(rank_name(d.rank as int), suit_name(d.suit as int)),
                    )
                });
                assert(start.forbidden_cards_sim@ + dealt_cards(draws@) =~= if d.out_of_cards {
                    start.forbidden_cards_sim@ + dealt_cards(draws@.drop_last())
                } else {
                    (start.forbidden_cards_sim@ + dealt_cards(draws@.drop_last())).push(
                        (d.suit, d.rank),
                    )
                });
            }
            k = k + 1;
        }
        draws
    }
}

/// The hands of `t` are `player` and `dealer` (names and ids) with the
/// cards of the draws `p` and `q` added.
pub open spec fn hands_after(
    t: GameTable,
    player: Seq<Seq<char>>,
    player_ids: Seq<Seq<char>>,
    dealer: Seq<Seq<char>>,
    dealer_ids: Seq<Seq<char>>,
    p: Seq<Drawn>,
    q: Seq<Drawn>,
) -> bool {
    &&& names(t.recorded_cards_player1@) == player + dealt_names(p)
    &&& names(t.player1_card_ids@) == player_ids + dealt_ids(p)
    &&& names(t.recorded_cards_dealer@) == dealer + dealt_names(q)
    &&& names(t.dealer_card_ids@) == dealer_ids + dealt_ids(q)
}

/// The dealt cards of `t` are `dealt` with the cards of `p`, then of `q`,
/// each of them free when it was drawn.
pub open spec fn dealt_after(t: GameTable, dealt: Seq<(i32, i32)>, p: Seq<Drawn>, q: Seq<Drawn>) -> bool {
    &&& t.forbidden_cards_sim@ == dealt + dealt_cards(p) + dealt_cards(q)
    &&& draws_fresh(dealt, p)
    &&& draws_fresh(dealt + dealt_cards(p), q)
}

/// Each hand total of `t` is counted from its hand if a card was added to
/// it, and is the earlier total otherwise.
pub open spec fn totals_after(t: GameTable, player_total: i32, dealer_total: i32, p: Seq<Drawn>, q: Seq<Drawn>) -> bool {
    &&& t.player1_hand_total == if some_card(p) {
        hand_value(names(t.recorded_cards_player1@))
    } else {
        player_total as int
    }
    &&& t.dealer_hand_total == if some_card(q) {
        hand_value(names(t.recorded_cards_dealer@))
    } else {
        dealer_total as int
    }
}

/// Draws that took no card add no name.
proof fn lemma_no_card_no_names(draws: Seq<Drawn>)
    requires
        !some_card(draws),
    ensures
        dealt_names(draws) == Seq::<Seq<char>>::empty(),
    decreases draws.len(),
{
    if draws.len() > 0 {
        assert(draws.last().out_of_cards) by {
            assert(draws[draws.len() - 1] == draws.last());
        }
        assert(!some_card(draws.drop_last())) by {
            assert forall|k: int| 0 <= k < draws.drop_last().len() implies (
            #[trigger] draws.drop_last()[k]).out_of_cards by {
                assert(draws.drop_last()[k] == draws[k]);
            }
        }
        lemma_no_card_no_names(draws.drop_last());
    }
}

/// Both hand totals of `t` are the counts of its hands.
pub open spec fn totals_counted(t: GameTable) -> bool {
    &&& t.player1_hand_total == hand_value(names(t.recorded_cards_player1@))
    &&& t.dealer_hand_total == hand_value(names(t.recorded_cards_dealer@))
}

/// The outcome windows of two tables agree, apart from out-of-cards and
/// blackjack.
pub open spec fn same_results(a: SimulatorStats, b: SimulatorStats) -> bool {
    &&& a.player_wins == b.player_wins
    &&& a.dealer_wins == b.dealer_wins
    &&& a.player_bust == b.player_bust
    &&& a.dealer_bust == b.dealer_bust
    &&& a.player_dealer_tie == b.player_dealer_tie
}

impl GameTable {
    /// Empties both hands and their ids.
    fn clear_hands(&mut self)
        requires
            old(self).wf(),
        ensures
            final(self).wf(),
            same_screens(*old(self), *final(self)),
            final(self).stats == old(self).stats,
            final(self).recorded_cards_player1@.len() == 0,
            final(self).player1_card_ids@.len() == 0,
            final(self).recorded_cards_dealer@.len() == 0,
            final(self).dealer_card_ids@.len() == 0,
            final(self).player1_hand_total == old(self).player1_hand_total,
            final(self).dealer_hand_total == old(self).dealer_hand_total,
            final(self).cards_remaining@ == old(self).cards_remaining@,
            final(self).forbidden_cards_sim@ == old(self).forbidden_cards_sim@,
    {
        self.recorded_cards_dealer.clear();
        self.recorded_cards_player1.clear();
        self.dealer_card_ids.clear();
        self.player1_card_ids.clear();
    }

    /// Starts a fresh deck: no card is dealt and every card is remaining.
    fn restart_deck(&mut self)
        requires
            old(self).wf(),
        ensures
            final(self).wf(),
            same_screens(*old(self), *final(self)),
            final(self).stats == old(self).stats,
            final(self).recorded_cards_player1@ == old(self).recorded_cards_player1@,
            final(self).player1_card_ids@ == old(self).player1_card_ids@,
            final(self).recorded_cards_dealer@ == old(self).recorded_cards_dealer@,
            final(self).dealer_card_ids@ == old(self).dealer_card_ids@,
            final(self).player1_hand_total == old(self).player1_hand_total,
            final(self).dealer_hand_total == old(self).dealer_hand_total,
            final(self).cards_remaining@ == full_counts(1),
            final(self).forbidden_cards_sim@.len() == 0,
    {
        self.forbidden_cards_sim.clear();
        self.cards_remaining = fresh_deck(self.number_of_decks);
        proof {
            lemma_nothing_dealt(self.forbidden_cards_sim@);
        }
    }

    /// "New Round" of the simulated game: both hands are emptied (the
    /// dealt cards stay dealt, so the remaining cards are the undealt
    /// ones), two cards are dealt to the player and one to the dealer, each
    /// counted off the remaining cards; a player total of 21 opens the
    /// blackjack window; a deck out of cards opens its window. The chances are then
    /// computed anew unless the deck is out of cards.
    pub fn new_round(&mut self) -> (report: RoundReport)
        requires
            old(self).wf(),
        ensures
            final(self).wf(),
            !some_out(report.player_draws@) && !some_out(report.dealer_draws@) ==> totals_counted(*final(self)),
            same_screens(*old(self), *final(self)),
            report.player_draws@.len() == 2,
            report.dealer_draws@.len() == 1,
            hands_after(
                *final(self),
                Seq::empty(),
                Seq::empty(),
                Seq::empty(),
                Seq::empty(),
                report.player_draws@,
                report.dealer_draws@,
            ),
            dealt_after(
                *final(self),
                old(self).forbidden_cards_sim@,
                report.player_draws@,
                report.dealer_draws@,
            ),
            final(self).cards_remaining@ == take_counts(
                take_counts(old(self).cards_remaining@, report.player_draws@),
                report.dealer_draws@,
            ),
            totals_after(
                *final(self),
                old(self).player1_hand_total,
                old(self).dealer_hand_total,
                report.player_draws@,
                report.dealer_draws@,
            ),
            same_results(old(self).stats, final(self).stats),
            final(self).stats.out_of_cards == (old(self).stats.out_of_cards || some_out(
                report.player_draws@,
            ) || some_out(report.dealer_draws@)),
            final(self).stats.natural_blackjack == (old(self).stats.natural_blackjack
                || final(self).player1_hand_total == 21),
            report.odds == if final(self).stats.out_of_cards {
                OddsRefresh::Cleared
            } else {
                OddsRefresh::Recomputed
            },
    {
        self.clear_hands();
        proof {
            crate::hand::lemma_small_hand_fits(names(self.recorded_cards_player1@));
            crate::hand::lemma_small_hand_fits(names(self.recorded_cards_dealer@));
        }
        let player_draws = self.deal_many(true, true, 2);
        proof {
            crate::hand::lemma_small_hand_fits(names(self.recorded_cards_dealer@));
        }
        let dealer_draws = self.deal_many(false, true, 1);
        if self.player1_hand_total == 21 {
            self.stats.natural_blackjack = true;
        }
        let odds = if !self.stats.out_of_cards {
            OddsRefresh::Recomputed
        } else {
            OddsRefresh::Cleared
        };
        proof {
            assert(Seq::<Seq<char>>::empty() + dealt_names(player_draws@) =~= dealt_names(player_draws@));
            assert(Seq::<Seq<char>>::empty() + dealt_ids(player_draws@) =~= dealt_ids(player_draws@));
            assert(Seq::<Seq<char>>::empty() + dealt_names(dealer_draws@) =~= dealt_names(dealer_draws@));
            assert(Seq::<Seq<char>>::empty() + dealt_ids(dealer_draws@) =~= dealt_ids(dealer_draws@));
        }
        RoundReport { player_draws, dealer_draws, odds }
    }
}

impl GameTable {
    /// "Start Game" of the simulated game: two cards are dealt to the
    /// player and one to the dealer without emptying the hands, each counted
    /// off the remaining cards. A player's draw from a deck out of cards
    /// only shows a note; the dealer's opens the out-of-cards window. A
    /// player total of 21 opens the blackjack window. The chances are
    /// computed anew unless the deck is out of cards.
    pub fn start_game(&mut self) -> (report: RoundReport)
        requires
            old(self).wf(),
            hand_room(names(old(self).recorded_cards_player1@), 2),
            hand_room(names(old(self).recorded_cards_dealer@), 1),
        ensures
            final(self).wf(),
            totals_counted(*old(self)) ==> totals_counted(*final(self)),
            same_screens(*old(self), *final(self)),
            report.player_draws@.len() == 2,
            report.dealer_draws@.len() == 1,
            hands_after(
                *final(self),
                names(old(self).recorded_cards_player1@),
                names(old(self).player1_card_ids@),
                names(old(self).recorded_cards_dealer@),
                names(old(self).dealer_card_ids@),
                report.player_draws@,
                report.dealer_draws@,
            ),
            dealt_after(
                *final(self),
                old(self).forbidden_cards_sim@,
                report.player_draws@,
                report.dealer_draws@,
            ),
            final(self).cards_remaining@ == take_counts(
                take_counts(old(self).cards_remaining@, report.player_draws@),
                report.dealer_draws@,
            ),
            totals_after(
                *final(self),
                old(self).player1_hand_total,
                old(self).dealer_hand_total,
                report.player_draws@,
                report.dealer_draws@,
            ),
            same_results(old(self).stats, final(self).stats),
            final(self).stats.out_of_cards == (old(self).stats.out_of_cards || some_out(
                report.dealer_draws@,
            )),
            final(self).stats.natural_blackjack == (old(self).stats.natural_blackjack
                || final(self).player1_hand_total == 21),
            report.odds == if final(self).stats.out_of_cards {
                OddsRefresh::Unchanged
            } else {
                OddsRefresh::Recomputed
            },
    {
        let ghost start = *self;
        let player_draws = self.deal_many(true, false, 2);
        let dealer_draws = self.deal_many(false, true, 1);
        if self.player1_hand_total == 21 {
            self.stats.natural_blackjack = true;
        }
        let odds = if !self.stats.out_of_cards {
            OddsRefresh::Recomputed
        } else {
            OddsRefresh::Unchanged
        };
        proof {
            if !some_card(player_draws@) {
                lemma_no_card_no_names(player_draws@);
                assert(names(start.recorded_cards_player1@) + Seq::<Seq<char>>::empty() =~= names(
                    start.recorded_cards_player1@,
                ));
            }
            if !some_card(dealer_draws@) {
                lemma_no_card_no_names(dealer_draws@);
                assert(names(start.recorded_cards_dealer@) + Seq::<Seq<char>>::empty() =~= names(
                    start.recorded_cards_dealer@,
                ));
            }
        }
        RoundReport { player_draws, dealer_draws, odds }
    }

    /// "Hit": one card is dealt to the player and counted off the remaining
    /// cards; a deck out of cards opens its window. A total over 21 opens
    /// the bust window, one of 21 the blackjack window. The chances are
    /// always computed anew.
    pub fn hit(&mut self) -> (report: RoundReport)
        requires
            old(self).wf(),
            hand_room(names(old(self).recorded_cards_player1@), 1),
        ensures
            final(self).wf(),
            totals_counted(*old(self)) ==> totals_counted(*final(self)),
            same_screens(*old(self), *final(self)),
            report.player_draws@.len() == 1,
            report.dealer_draws@.len() == 0,
            hands_after(
                *final(self),
                names(old(self).recorded_cards_player1@),
                names(old(self).player1_card_ids@),
                names(old(self).recorded_cards_dealer@),
                names(old(self).dealer_card_ids@),
                report.player_draws@,
                report.dealer_draws@,
            ),
            dealt_after(
                *final(self),
                old(self).forbidden_cards_sim@,
                report.player_draws@,
                report.dealer_draws@,
            ),
            final(self).cards_remaining@ == take_counts(
                old(self).cards_remaining@,
                report.player_draws@,
            ),
            totals_after(
                *final(self),
                old(self).player1_hand_total,
                old(self).dealer_hand_total,
                report.player_draws@,
                report.dealer_draws@,
            ),
            final(self).stats.out_of_cards == (old(self).stats.out_of_cards || some_out(
                report.player_draws@,
            )),
            final(self).stats.player_bust == (old(self).stats.player_bust
                || final(self).player1_hand_total > 21),
            final(self).stats.natural_blackjack == (old(self).stats.natural_blackjack
                || final(self).player1_hand_total == 21),
            final(self).stats.player_wins == old(self).stats.player_wins,
            final(self).stats.dealer_wins == old(self).stats.dealer_wins,
            final(self).stats.dealer_bust == old(self).stats.dealer_bust,
            final(self).stats.player_dealer_tie == old(self).stats.player_dealer_tie,
            report.odds == OddsRefresh::Recomputed,
    {
        let ghost start = *self;
        let player_draws = self.deal_many(true, true, 1);
        let dealer_draws: Vec<Drawn> = Vec::new();
        proof {
            lemma_draws_empty(self.forbidden_cards_sim@, self.cards_remaining@);
            assert(names(self.recorded_cards_dealer@) + dealt_names(dealer_draws@) =~= names(
                self.recorded_cards_dealer@,
            ));
            assert(names(self.dealer_card_ids@) + dealt_ids(dealer_draws@) =~= names(
                self.dealer_card_ids@,
            ));
            assert(self.forbidden_cards_sim@ + dealt_cards(dealer_draws@) =~= self.forbidden_cards_sim@);
        }
        if self.player1_hand_total > 21 {
            self.stats.player_bust = true;
        }
        if self.player1_hand_total == 21 {
            self.stats.natural_blackjack = true;
        }
        proof {
            if !some_card(player_draws@) {
                lemma_no_card_no_names(player_draws@);
                assert(names(start.recorded_cards_player1@) + Seq::<Seq<char>>::empty() =~= names(
                    start.recorded_cards_player1@,
                ));
            }
        }
        RoundReport { player_draws, dealer_draws, odds: OddsRefresh::Recomputed }
    }

    /// "New Round?" in an outcome window: both hands are emptied (the dealt
    /// cards stay dealt), then two cards are dealt to the player and one to
    /// the dealer, each counted off the remaining cards; a deck out of
    /// cards opens its window. The
    /// chances are computed anew unless the deck is out of cards. The
    /// outcome windows stay as they are.
    pub fn popup_new_round(&mut self, outcome: Outcome) -> (report: RoundReport)
        requires
            old(self).wf(),
        ensures
            final(self).wf(),
            !some_out(report.player_draws@) && !some_out(report.dealer_draws@) ==> totals_counted(*final(self)),
            same_screens(*old(self), *final(self)),
            report.player_draws@.len() == 2,
            report.dealer_draws@.len() == 1,
            hands_after(
                *final(self),
                Seq::empty(),
                Seq::empty(),
                Seq::empty(),
                Seq::empty(),
                report.player_draws@,
                report.dealer_draws@,
            ),
            dealt_after(
                *final(self),
                old(self).forbidden_cards_sim@,
                report.player_draws@,
                report.dealer_draws@,
            ),
            final(self).cards_remaining@ == take_counts(
                take_counts(old(self).cards_remaining@, report.player_draws@),
                report.dealer_draws@,
            ),
            totals_after(
                *final(self),
                old(self).player1_hand_total,
                old(self).dealer_hand_total,
                report.player_draws@,
                report.dealer_draws@,
            ),
            same_outcomes(old(self).stats, final(self).stats),
            final(self).stats.out_of_cards == (old(self).stats.out_of_cards || some_out(
                report.player_draws@,
            ) || some_out(report.dealer_draws@)),
            report.odds == if final(self).stats.out_of_cards {
                OddsRefresh::Cleared
            } else {
                OddsRefresh::Recomputed
            },
    {
        self.clear_hands();
        proof {
            crate::hand::lemma_small_hand_fits(names(self.recorded_cards_player1@));
            crate::hand::lemma_small_hand_fits(names(self.recorded_cards_dealer@));
        }
        let player_draws = self.deal_many(true, true, 2);
        proof {
            crate::hand::lemma_small_hand_fits(names(self.recorded_cards_dealer@));
        }
        let dealer_draws = self.deal_many(false, true, 1);
        let odds = if !self.stats.out_of_cards {
            OddsRefresh::Recomputed
        } else {
            OddsRefresh::Cleared
        };
        proof {
            assert(Seq::<Seq<char>>::empty() + dealt_names(player_draws@) =~= dealt_names(player_draws@));
            assert(Seq::<Seq<char>>::empty() + dealt_ids(player_draws@) =~= dealt_ids(player_draws@));
            assert(Seq::<Seq<char>>::empty() + dealt_names(dealer_draws@) =~= dealt_names(dealer_draws@));
            assert(Seq::<Seq<char>>::empty() + dealt_ids(dealer_draws@) =~= dealt_ids(dealer_draws@));
        }
        RoundReport { player_draws, dealer_draws, odds }
    }

    /// Closing an outcome window.
    pub fn close_popup(&mut self, outcome: Outcome)
        requires
            old(self).wf(),
        ensures
            final(self).wf(),
            totals_counted(*old(self)) ==> totals_counted(*final(self)),
            same_screens(*old(self), *final(self)),
            final(self).recorded_cards_player1@ == old(self).recorded_cards_player1@,
            final(self).player1_card_ids@ == old(self).player1_card_ids@,
            final(self).recorded_cards_dealer@ == old(self).recorded_cards_dealer@,
            final(self).dealer_card_ids@ == old(self).dealer_card_ids@,
            final(self).player1_hand_total == old(self).player1_hand_total,
            final(self).dealer_hand_total == old(self).dealer_hand_total,
            final(self).cards_remaining@ == old(self).cards_remaining@,
            final(self).forbidden_cards_sim@ == old(self).forbidden_cards_sim@,
            final(self).stats == (match outcome {
                Outcome::PlayerWins => SimulatorStats { player_wins: false, ..old(self).stats },
                Outcome::DealerWins => SimulatorStats { dealer_wins: false, ..old(self).stats },
                Outcome::PlayerBust => SimulatorStats { player_bust: false, ..old(self).stats },
                Outcome::DealerBust => SimulatorStats { dealer_bust: false, ..old(self).stats },
                Outcome::Tie => SimulatorStats { player_dealer_tie: false, ..old(self).stats },
                Outcome::Blackjack => SimulatorStats { natural_blackjack: false, ..old(self).stats },
            }),
    {
        match outcome {
            Outcome::PlayerWins => {
                self.stats.player_wins = false;
            },
            Outcome::DealerWins => {
                self.stats.dealer_wins = false;
            },
            Outcome::PlayerBust => {
                self.stats.player_bust = false;
            },
            Outcome::DealerBust => {
                self.stats.dealer_bust = false;
            },
            Outcome::Tie => {
                self.stats.player_dealer_tie = false;
            },
            Outcome::Blackjack => {
                self.stats.natural_blackjack = false;
            },
        }
    }
}

impl GameTable {
    /// "New Game?" in the out-of-cards window: both hands are emptied and a
    /// fresh deck started (no card dealt, every card remaining); then two
    /// cards are dealt to the player and one to the dealer, each counted off
    /// the remaining cards. The windows stay as they are; the chances are
    /// computed anew unless the out-of-cards window is open.
    pub fn out_of_cards_new_game(&mut self) -> (report: RoundReport)
        requires
            old(self).wf(),
        ensures
            final(self).wf(),
            same_screens(*old(self), *final(self)),
            report.player_draws@.len() == 2,
            report.dealer_draws@.len() == 1,
            !some_out(report.player_draws@),
            !some_out(report.dealer_draws@),
            hands_after(
                *final(self),
                Seq::empty(),
                Seq::empty(),
                Seq::empty(),
                Seq::empty(),
                report.player_draws@,
                report.dealer_draws@,
            ),
            dealt_after(*final(self), Seq::empty(), report.player_draws@, report.dealer_draws@),
            final(self).cards_remaining@ == take_counts(
                take_counts(full_counts(1), report.player_draws@),
                report.dealer_draws@,
            ),
            final(self).player1_hand_total == hand_value(names(final(self).recorded_cards_player1@)),
            final(self).dealer_hand_total == hand_value(names(final(self).recorded_cards_dealer@)),
            final(self).stats == old(self).stats,
            report.odds == if final(self).stats.out_of_cards {
                OddsRefresh::Cleared
            } else {
                OddsRefresh::Recomputed
            },
    {
        self.clear_hands();
        self.restart_deck();
        proof {
            crate::hand::lemma_small_hand_fits(names(self.recorded_cards_player1@));
            crate::hand::lemma_small_hand_fits(names(self.recorded_cards_dealer@));
        }
        let ghost base = self.forbidden_cards_sim@;
        assert(base =~= Seq::<(i32, i32)>::empty());
        let player_draws = self.deal_many(true, false, 2);
        proof {
            crate::hand::lemma_small_hand_fits(names(self.recorded_cards_dealer@));
            lemma_short_deck(base, player_draws@);
        }
        let ghost mid = self.forbidden_cards_sim@;
        let dealer_draws = self.deal_many(false, false, 1);
        proof {
            assert(mid.len() <= 2) by {
                lemma_dealt_cards_len(player_draws@);
            }
            lemma_short_deck(mid, dealer_draws@);
            assert(base + dealt_cards(player_draws@) == mid);
            assert(Seq::<Seq<char>>::empty() + dealt_names(player_draws@) =~= dealt_names(player_draws@));
            assert(Seq::<Seq<char>>::empty() + dealt_ids(player_draws@) =~= dealt_ids(player_draws@));
            assert(Seq::<Seq<char>>::empty() + dealt_names(dealer_draws@) =~= dealt_names(dealer_draws@));
            assert(Seq::<Seq<char>>::empty() + dealt_ids(dealer_draws@) =~= dealt_ids(dealer_draws@));
            assert(Seq::<(i32, i32)>::empty() + dealt_cards(player_draws@) =~= dealt_cards(player_draws@));
        }
        let odds = if !self.stats.out_of_cards {
            OddsRefresh::Recomputed
        } else {
            OddsRefresh::Cleared
        };
        RoundReport { player_draws, dealer_draws, odds }
    }
}

/// A list of at most two dealt cards leaves a card undealt.
proof fn lemma_few_dealt(dealt: Seq<(i32, i32)>)
    requires
        dealt.len() <= 2,
    ensures
        !all_dealt(dealt),
{
    let a = (0i32, 0i32);
    let b = (0i32, 1i32);
    let c = (0i32, 2i32);
    if dealt.contains(a) && dealt.contains(b) && dealt.contains(c) {
        let i = choose|i: int| 0 <= i < dealt.len() && dealt[i] == a;
        let j = choose|j: int| 0 <= j < dealt.len() && dealt[j] == b;
        let k = choose|k: int| 0 <= k < dealt.len() && dealt[k] == c;
        assert(false);
    }
}

proof fn lemma_dealt_cards_len(draws: Seq<Drawn>)
    ensures
        dealt_cards(draws).len() <= draws.len(),
    decreases draws.len(),
{
    if draws.len() > 0 {
        lemma_dealt_cards_len(draws.drop_last());
    }
}

/// Draws from a deck with at most two cards dealt before each draw always
/// take a card.
proof fn lemma_short_deck(dealt: Seq<(i32, i32)>, draws: Seq<Drawn>)
    requires
        draws_fresh(dealt, draws),
        dealt.len() + draws.len() <= 3,
    ensures
        !some_out(draws),
    decreases draws.len(),
{
    if draws.len() > 0 {
        lemma_short_deck(dealt, draws.drop_last());
        lemma_dealt_cards_len(draws.drop_last());
        lemma_few_dealt(dealt + dealt_cards(draws.drop_last()));
        if some_out(draws) {
            let k = choose|k: int| 0 <= k < draws.len() && (#[trigger] draws[k]).out_of_cards;
            if k < draws.len() - 1 {
                assert(draws.drop_last()[k] == draws[k]);
            }
        }
    }
}

/// Two tables agree on everything but screens and choices.
pub open spec fn same_cards(a: GameTable, b: GameTable) -> bool {
    &&& a.recorded_cards_player1@ == b.recorded_cards_player1@
    &&& a.player1_card_ids@ == b.player1_card_ids@
    &&& a.recorded_cards_dealer@ == b.recorded_cards_dealer@
    &&& a.dealer_card_ids@ == b.dealer_card_ids@
    &&& a.player1_hand_total == b.player1_hand_total
    &&& a.dealer_hand_total == b.dealer_hand_total
    &&& a.cards_remaining@ == b.cards_remaining@
    &&& a.forbidden_cards_sim@ == b.forbidden_cards_sim@
    &&& a.stats == b.stats
    &&& a.number_of_decks == b.number_of_decks
}

/// Two tables agree on their choices of player, suit and number.
pub open spec fn same_choices(a: GameTable, b: GameTable) -> bool {
    &&& a.selected_player == b.selected_player
    &&& a.selected_suit == b.selected_suit
    &&& a.selected_number == b.selected_number
}

impl GameTable {
    /// The escape key: back to the start screen (the mode stays chosen).
    pub fn escape(&mut self)
        requires
            old(self).wf(),
        ensures
            final(self).wf(),
            same_cards(*old(self), *final(self)),
            same_choices(*old(self), *final(self)),
            final(self).start_screen,
            final(self).game_sim == old(self).game_sim,
            final(self).card_counter == old(self).card_counter,
            final(self).secret_pop == old(self).secret_pop,
    {
        self.start_screen = true;
    }

    /// "Play a Round" on the start screen: the simulated game.
    pub fn play_round(&mut self)
        requires
            old(self).wf(),
        ensures
            final(self).wf(),
            same_cards(*old(self), *final(self)),
            same_choices(*old(self), *final(self)),
            !final(self).start_screen,
            final(self).game_sim,
            !final(self).card_counter,
            final(self).secret_pop == old(self).secret_pop,
    {
        self.game_sim = true;
        self.start_screen = false;
        self.card_counter = false;
    }

    /// "Get Some Help" on the start screen: the card-counting helper.
    pub fn get_help(&mut self)
        requires
            old(self).wf(),
        ensures
            final(self).wf(),
            same_cards(*old(self), *final(self)),
            same_choices(*old(self), *final(self)),
            !final(self).start_screen,
            !final(self).game_sim,
            final(self).card_counter,
            final(self).secret_pop == old(self).secret_pop,
    {
        self.card_counter = true;
        self.game_sim = false;
        self.start_screen = false;
    }

    /// The "Return" button: back to the start screen, no mode chosen.
    pub fn return_home(&mut self)
        requires
            old(self).wf(),
        ensures
            final(self).wf(),
            same_cards(*old(self), *final(self)),
            same_choices(*old(self), *final(self)),
            final(self).start_screen,
            !final(self).game_sim,
            !final(self).card_counter,
            final(self).secret_pop == old(self).secret_pop,
    {
        self.game_sim = false;
        self.card_counter = false;
        self.start_screen = true;
    }

    /// The heart button: shows or hides the hidden note.
    pub fn toggle_secret(&mut self)
        requires
            old(self).wf(),
        ensures
            final(self).wf(),
            same_cards(*old(self), *final(self)),
            same_choices(*old(self), *final(self)),
            final(self).start_screen == old(self).start_screen,
            final(self).game_sim == old(self).game_sim,
            final(self).card_counter == old(self).card_counter,
            final(self).secret_pop == !old(self).secret_pop,
    {
        self.secret_pop = !self.secret_pop;
    }

    /// Chooses whose card is added: 0 for the dealer, 1 for player 1.
    pub fn choose_player(&mut self, player: usize)
        requires
            old(self).wf(),
            player < 2,
        ensures
            final(self).wf(),
            same_cards(*old(self), *final(self)),
            same_screens(*final(self), GameTable { selected_player: Some(player), ..*old(self) }),
    {
        self.selected_player = Some(player);
    }

    /// Chooses the suit of the card added (hearts, spades, diamonds, clubs).
    pub fn choose_suit(&mut self, suit: usize)
        requires
            old(self).wf(),
            suit < 4,
        ensures
            final(self).wf(),
            same_cards(*old(self), *final(self)),
            same_screens(*final(self), GameTable { selected_suit: Some(suit), ..*old(self) }),
    {
        self.selected_suit = Some(suit);
    }

    /// Chooses the number of the card added (2, ..., 10, jack, queen, king, ace).
    pub fn choose_number(&mut self, number: usize)
        requires
            old(self).wf(),
            number < 13,
        ensures
            final(self).wf(),
            same_cards(*old(self), *final(self)),
            same_screens(*final(self), GameTable { selected_number: Some(number), ..*old(self) }),
    {
        self.selected_number = Some(number);
    }

    /// "Add Card" of the counting helper: once a player, a suit and a
    /// number are chosen, the chosen card is added to the chosen hand (its
    /// number as the card's name) and the total of that hand is counted
    /// again. The chances are computed anew once the dealer holds a card
    /// and the player two.
    pub fn add_card(&mut self) -> (odds: OddsRefresh)
        requires
            old(self).wf(),
            ({
                let chosen = old(self).selected_player is Some && old(self).selected_suit is Some
                    && old(self).selected_number is Some;
                let to_player = old(self).selected_player == Some(1usize);
                chosen ==> hand_room(names(seat_cards(*old(self), to_player)), 1)
            }),
        ensures
            final(self).wf(),
            same_screens(*old(self), *final(self)),
            totals_counted(*old(self)) ==> totals_counted(*final(self)),
            final(self).cards_remaining@ == old(self).cards_remaining@,
            final(self).forbidden_cards_sim@ == old(self).forbidden_cards_sim@,
            final(self).stats == old(self).stats,
            ({
                let old_table = *old(self);
                let chosen = old_table.selected_player is Some && old_table.selected_suit is Some
                    && old_table.selected_number is Some;
                let to_player = old_table.selected_player == Some(1usize);
                let name = rank_name(old_table.selected_number.unwrap() as int);
                let id = card_id_text(name, suit_name(old_table.selected_suit.unwrap() as int));
                if chosen {
                    &&& seat_total(*final(self), to_player) == hand_value(
                        names(seat_cards(*final(self), to_player)),
                    )
                    &&& seat_total(*final(self), !to_player) == seat_total(old_table, !to_player)
                    &&& names(seat_cards(*final(self), to_player)) == names(
                        seat_cards(old_table, to_player),
                    ).push(name)
                    &&& names(seat_ids(*final(self), to_player)) == names(
                        seat_ids(old_table, to_player),
                    ).push(id)
                    &&& seat_cards(*final(self), !to_player) == seat_cards(old_table, !to_player)
                    &&& seat_ids(*final(self), !to_player) == seat_ids(old_table, !to_player)
                } else {
                    &&& final(self).player1_hand_total == old_table.player1_hand_total
                    &&& final(self).dealer_hand_total == old_table.dealer_hand_total
                    &&& final(self).recorded_cards_player1@ == old_table.recorded_cards_player1@
                    &&& final(self).player1_card_ids@ == old_table.player1_card_ids@
                    &&& final(self).recorded_cards_dealer@ == old_table.recorded_cards_dealer@
                    &&& final(self).dealer_card_ids@ == old_table.dealer_card_ids@
                }
            }),
            odds == if final(self).recorded_cards_dealer@.len() >= 1
                && final(self).recorded_cards_player1@.len() >= 2 {
                OddsRefresh::Recomputed
            } else {
                OddsRefresh::Unchanged
            },
    {
        match (self.selected_player, self.selected_suit, self.selected_number) {
            (Some(player), Some(suit), Some(number)) => {
                let name = rank_name_string(number as i32);
                let suit_text = suit_name_string(suit as i32);
                let id = card_id(&name, suit_text.as_str());
                if player == 0 {
                    proof {
                        lemma_names_push(self.recorded_cards_dealer@, name);
                        lemma_names_push(self.dealer_card_ids@, id);
                        lemma_ids_push(
                            names(self.recorded_cards_dealer@),
                            names(self.dealer_card_ids@),
                            name@,
                            suit as int,
                        );
                    }
                    proof {
                        crate::hand::lemma_push(names(self.recorded_cards_dealer@), name@);
                        lemma_card_score_range(name@);
                        lemma_hand_nonneg(names(self.recorded_cards_dealer@.push(name)));
                    }
                    self.recorded_cards_dealer.push(name);
                    self.dealer_card_ids.push(id);
                    self.dealer_hand_total = hand_total(self.recorded_cards_dealer.clone());
                } else {
                    proof {
                        lemma_names_push(self.recorded_cards_player1@, name);
                        lemma_names_push(self.player1_card_ids@, id);
                        lemma_ids_push(
                            names(self.recorded_cards_player1@),
                            names(self.player1_card_ids@),
                            name@,
                            suit as int,
                        );
                    }
                    proof {
                        crate::hand::lemma_push(names(self.recorded_cards_player1@), name@);
                        lemma_card_score_range(name@);
                        lemma_hand_nonneg(names(self.recorded_cards_player1@.push(name)));
                    }
                    self.recorded_cards_player1.push(name);
                    self.player1_card_ids.push(id);
                    self.player1_hand_total = hand_total(self.recorded_cards_player1.clone());
                }
            },
            _ => {},
        }
        if self.recorded_cards_dealer.len() >= 1 && self.recorded_cards_player1.len() >= 2 {
            OddsRefresh::Recomputed
        } else {
            OddsRefresh::Unchanged
        }
    }

    /// "Reset Dealer": empties the dealer's hand.
    pub fn reset_dealer(&mut self)
        requires
            old(self).wf(),
        ensures
            final(self).wf(),
            same_screens(*old(self), *final(self)),
            final(self).recorded_cards_dealer@.len() == 0,
            final(self).dealer_card_ids@.len() == 0,
            final(self).recorded_cards_player1@ == old(self).recorded_cards_player1@,
            final(self).player1_card_ids@ == old(self).player1_card_ids@,
            final(self).player1_hand_total == old(self).player1_hand_total,
            final(self).dealer_hand_total == old(self).dealer_hand_total,
            final(self).cards_remaining@ == old(self).cards_remaining@,
            final(self).forbidden_cards_sim@ == old(self).forbidden_cards_sim@,
            final(self).stats == old(self).stats,
    {
        self.recorded_cards_dealer.clear();
        self.dealer_card_ids.clear();
    }

    /// "Reset Player": empties the player's hand.
    pub fn reset_player(&mut self)
        requires
            old(self).wf(),
        ensures
            final(self).wf(),
            same_screens(*old(self), *final(self)),
            final(self).recorded_cards_player1@.len() == 0,
            final(self).player1_card_ids@.len() == 0,
            final(self).recorded_cards_dealer@ == old(self).recorded_cards_dealer@,
            final(self).dealer_card_ids@ == old(self).dealer_card_ids@,
            final(self).player1_hand_total == old(self).player1_hand_total,
            final(self).dealer_hand_total == old(self).dealer_hand_total,
            final(self).cards_remaining@ == old(self).cards_remaining@,
            final(self).forbidden_cards_sim@ == old(self).forbidden_cards_sim@,
            final(self).stats == old(self).stats,
    {
        self.recorded_cards_player1.clear();
        self.player1_card_ids.clear();
    }

    /// "New Round" of the counting helper: empties both hands and keeps the
    /// count of remaining cards; the chances are reset.
    pub fn counter_new_round(&mut self) -> (odds: OddsRefresh)
        requires
            old(self).wf(),
        ensures
            final(self).wf(),
            same_screens(*old(self), *final(self)),
            final(self).recorded_cards_player1@.len() == 0,
            final(self).player1_card_ids@.len() == 0,
            final(self).recorded_cards_dealer@.len() == 0,
            final(self).dealer_card_ids@.len() == 0,
            final(self).player1_hand_total == old(self).player1_hand_total,
            final(self).dealer_hand_total == old(self).dealer_hand_total,
            final(self).cards_remaining@ == old(self).cards_remaining@,
            final(self).forbidden_cards_sim@ == old(self).forbidden_cards_sim@,
            final(self).stats == old(self).stats,
            odds == OddsRefresh::Cleared,
    {
        self.clear_hands();
        OddsRefresh::Cleared
    }

    /// "New Game" of the counting helper: empties both hands and resets the
    /// card count to a full deck (no card dealt); the chances are reset.
    pub fn counter_new_game(&mut self) -> (odds: OddsRefresh)
        requires
            old(self).wf(),
        ensures
            final(self).wf(),
            same_screens(*old(self), *final(self)),
            final(self).recorded_cards_player1@.len() == 0,
            final(self).player1_card_ids@.len() == 0,
            final(self).recorded_cards_dealer@.len() == 0,
            final(self).dealer_card_ids@.len() == 0,
            final(self).player1_hand_total == old(self).player1_hand_total,
            final(self).dealer_hand_total == old(self).dealer_hand_total,
            final(self).number_of_decks == old(self).number_of_decks,
            final(self).cards_remaining@ == full_counts(old(self).number_of_decks),
            final(self).forbidden_cards_sim@.len() == 0,
            final(self).stats == old(self).stats,
            odds == OddsRefresh::Cleared,
    {
        self.clear_hands();
        self.restart_deck();
        OddsRefresh::Cleared
    }

    /// "New Game" of the simulated game: empties both hands, forgets the
    /// dealt cards and counts every card as remaining again; the chances
    /// are reset.
    pub fn new_game(&mut self) -> (odds: OddsRefresh)
        requires
            old(self).wf(),
        ensures
            final(self).wf(),
            same_screens(*old(self), *final(self)),
            final(self).recorded_cards_player1@.len() == 0,
            final(self).player1_card_ids@.len() == 0,
            final(self).recorded_cards_dealer@.len() == 0,
            final(self).dealer_card_ids@.len() == 0,
            final(self).player1_hand_total == old(self).player1_hand_total,
            final(self).dealer_hand_total == old(self).dealer_hand_total,
            final(self).cards_remaining@ == full_counts(1),
            final(self).forbidden_cards_sim@.len() == 0,
            final(self).stats == old(self).stats,
            odds == OddsRefresh::Cleared,
    {
        self.clear_hands();
        self.restart_deck();
        OddsRefresh::Cleared
    }

    /// Counts both hands again, as showing them does.
    pub fn refresh_totals(&mut self)
        requires
            old(self).wf(),
            hand_fits(names(old(self).recorded_cards_player1@)),
            hand_fits(names(old(self).recorded_cards_dealer@)),
        ensures
            final(self).wf(),
            same_screens(*old(self), *final(self)),
            final(self).recorded_cards_player1@ == old(self).recorded_cards_player1@,
            final(self).player1_card_ids@ == old(self).player1_card_ids@,
            final(self).recorded_cards_dealer@ == old(self).recorded_cards_dealer@,
            final(self).dealer_card_ids@ == old(self).dealer_card_ids@,
            final(self).cards_remaining@ == old(self).cards_remaining@,
            final(self).forbidden_cards_sim@ == old(self).forbidden_cards_sim@,
            final(self).stats == old(self).stats,
            final(self).player1_hand_total == hand_value(names(final(self).recorded_cards_player1@)),
            final(self).dealer_hand_total == hand_value(names(final(self).recorded_cards_dealer@)),
    {
        proof {
            lemma_hand_nonneg(names(self.recorded_cards_player1@));
            lemma_hand_nonneg(names(self.recorded_cards_dealer@));
        }
        self.player1_hand_total = hand_total(self.recorded_cards_player1.clone());
        self.dealer_hand_total = hand_total(self.recorded_cards_dealer.clone());
    }
}

/// The remaining cards of a table are its free cards.
proof fn lemma_remaining_are_free(t: GameTable)
    requires
        t.wf(),
    ensures
        seq_total(t.cards_remaining@) == free_cards(t.forbidden_cards_sim@, 13),
{
    let c = t.cards_remaining@;
    assert forall|k: int| 0 <= k <= 13 implies #[trigger] seq_total(c.take(k)) == free_cards(
        t.forbidden_cards_sim@,
        k,
    ) by {
        lemma_prefix_free(t, k);
    }
    assert(c.take(13) =~= c);
}

proof fn lemma_prefix_free(t: GameTable, k: int)
    requires
        t.wf(),
        0 <= k <= 13,
    ensures
        seq_total(t.cards_remaining@.take(k)) == free_cards(t.forbidden_cards_sim@, k),
    decreases k,
{
    if k > 0 {
        lemma_prefix_free(t, k - 1);
        assert(t.cards_remaining@.take(k).drop_last() =~= t.cards_remaining@.take(k - 1));
        assert(t.cards_remaining@[k - 1] == rank_free(t.forbidden_cards_sim@, k - 1));
    } else {
        assert(t.cards_remaining@.take(0) =~= Seq::<i32>::empty());
    }
}

/// A deck that is not out of cards has a free card.
proof fn lemma_some_free(dealt: Seq<(i32, i32)>)
    requires
        !all_dealt(dealt),
    ensures
        free_cards(dealt, 13) >= 1,
{
    let (s, r) = choose|s: i32, r: i32| 0 <= s < 4 && 0 <= r < 13 && !dealt.contains((s, r));
    lemma_free_at_least(dealt, r as int, 13);
    assert(suit_free(dealt, s as int, r as int) == 1);
}

proof fn lemma_free_at_least(dealt: Seq<(i32, i32)>, r: int, k: int)
    requires
        0 <= r < k <= 13,
    ensures
        free_cards(dealt, k) >= rank_free(dealt, r),
    decreases k,
{
    lemma_record_free_cards(dealt, (0i32, 0i32), k - 1);
    lemma_record_card(dealt, (0i32, 0i32), k - 1);
    if r < k - 1 {
        lemma_free_at_least(dealt, r, k - 1);
    }
}

/// The dealer's total before the `k`-th draw of a stand that began at
/// table `start`.
pub open spec fn dealer_total_before(start: GameTable, draws: Seq<Drawn>, k: int) -> int {
    if some_card(draws.take(k)) {
        hand_value(names(start.recorded_cards_dealer@) + dealt_names(draws.take(k)))
    } else {
        start.dealer_hand_total as int
    }
}

proof fn lemma_room_less(hand: Seq<Seq<char>>, more: int, less: int)
    requires
        hand_room(hand, more),
        less <= more,
    ensures
        hand_room(hand, less),
{
}

impl GameTable {
    /// "Stand": the dealer draws, each card counted off the remaining
    /// cards, while the dealer's total is 17 or less; a deck out of cards
    /// opens its window and ends the drawing. The dealer's hand needs room
    /// for every remaining card. Then the outcome: a dealer
    /// over 21 busts; otherwise the higher total wins and equal totals tie.
    #[verifier::rlimit(80)]
    pub fn stand(&mut self) -> (draws: Vec<Drawn>)
        requires
            old(self).wf(),
            hand_room(names(old(self).recorded_cards_dealer@), seq_total(old(self).cards_remaining@)),
        ensures
            final(self).wf(),
            totals_counted(*old(self)) ==> totals_counted(*final(self)),
            same_screens(*old(self), *final(self)),
            final(self).recorded_cards_player1@ == old(self).recorded_cards_player1@,
            final(self).player1_card_ids@ == old(self).player1_card_ids@,
            final(self).player1_hand_total == old(self).player1_hand_total,
            names(final(self).recorded_cards_dealer@) == names(old(self).recorded_cards_dealer@)
                + dealt_names(draws@),
            names(final(self).dealer_card_ids@) == names(old(self).dealer_card_ids@) + dealt_ids(
                draws@,
            ),
            final(self).forbidden_cards_sim@ == old(self).forbidden_cards_sim@ + dealt_cards(draws@),
            draws_fresh(old(self).forbidden_cards_sim@, draws@),
            final(self).cards_remaining@ == take_counts(old(self).cards_remaining@, draws@),
            final(self).dealer_hand_total == if some_card(draws@) {
                hand_value(names(final(self).recorded_cards_dealer@))
            } else {
                old(self).dealer_hand_total as int
            },
            forall|k: int| 0 <= k < draws@.len() - 1 ==> !(#[trigger] draws@[k]).out_of_cards,
            forall|k: int|
                0 <= k < draws@.len() ==> #[trigger] dealer_total_before(*old(self), draws@, k)
                    <= 17,
            (draws@.len() > 0 && draws@.last().out_of_cards) || final(self).dealer_hand_total > 17,
            final(self).stats.out_of_cards == (old(self).stats.out_of_cards || some_out(draws@)),
            final(self).stats.dealer_bust == (old(self).stats.dealer_bust
                || final(self).dealer_hand_total > 21),
            final(self).stats.dealer_wins == (old(self).stats.dealer_wins || (
            final(self).dealer_hand_total <= 21 && final(self).dealer_hand_total
                > final(self).player1_hand_total)),
            final(self).stats.player_dealer_tie == (old(self).stats.player_dealer_tie || (
            final(self).dealer_hand_total <= 21 && final(self).dealer_hand_total
                == final(self).player1_hand_total)),
            final(self).stats.player_wins == (old(self).stats.player_wins || (
            final(self).dealer_hand_total <= 21 && final(self).dealer_hand_total
                < final(self).player1_hand_total)),
            final(self).stats.player_bust == old(self).stats.player_bust,
            final(self).stats.natural_blackjack == old(self).stats.natural_blackjack,
    {
        let ghost start = *self;
        let mut draws: Vec<Drawn> = Vec::new();
        proof {
            lemma_draws_empty(start.forbidden_cards_sim@, start.cards_remaining@);
            assert(names(start.recorded_cards_dealer@) + dealt_names(draws@) =~= names(
                start.recorded_cards_dealer@,
            ));
            assert(names(start.dealer_card_ids@) + dealt_ids(draws@) =~= names(start.dealer_card_ids@));
            assert(start.forbidden_cards_sim@ + dealt_cards(draws@) =~= start.forbidden_cards_sim@);
            lemma_remaining_are_free(start);
        }
        while self.dealer_hand_total <= 17
            invariant_except_break
                forall|k: int| 0 <= k < draws@.len() ==> !(#[trigger] draws@[k]).out_of_cards,
                hand_room(
                    names(self.recorded_cards_dealer@),
                    free_cards(self.forbidden_cards_sim@, 13),
                ),
                self.dealer_hand_total == dealer_total_before(start, draws@, draws@.len() as int),
            invariant
                self.wf(),
                same_screens(start, *self),
                same_outcomes(start.stats, self.stats),
                self.recorded_cards_player1@ == start.recorded_cards_player1@,
                self.player1_card_ids@ == start.player1_card_ids@,
                self.player1_hand_total == start.player1_hand_total,
                names(self.recorded_cards_dealer@) == names(start.recorded_cards_dealer@)
                    + dealt_names(draws@),
                names(self.dealer_card_ids@) == names(start.dealer_card_ids@) + dealt_ids(draws@),
                self.forbidden_cards_sim@ == start.forbidden_cards_sim@ + dealt_cards(draws@),
                draws_fresh(start.forbidden_cards_sim@, draws@),
                self.cards_remaining@ == take_counts(start.cards_remaining@, draws@),
                self.dealer_hand_total == if some_card(draws@) {
                    hand_value(names(self.recorded_cards_dealer@))
                } else {
                    start.dealer_hand_total as int
                },
                self.stats.out_of_cards == (start.stats.out_of_cards || some_out(draws@)),
                forall|k: int|
                    0 <= k < draws@.len() ==> #[trigger] dealer_total_before(start, draws@, k)
                        <= 17,
                forall|k: int| 0 <= k < draws@.len() - 1 ==> !(#[trigger] draws@[k]).out_of_cards,
            ensures
                (draws@.len() > 0 && draws@.last().out_of_cards) || self.dealer_hand_total > 17,
            decreases free_cards(self.forbidden_cards_sim@, 13),
        {
            let ghost before = *self;
            let ghost before_draws = draws@;
            proof {
                lemma_record_free_cards(before.forbidden_cards_sim@, (0i32, 0i32), 13);
                assert(draws@.take(draws@.len() as int) =~= draws@);
                if !all_dealt(before.forbidden_cards_sim@) {
                    lemma_some_free(before.forbidden_cards_sim@);
                    lemma_room_less(
                        names(before.recorded_cards_dealer@),
                        free_cards(before.forbidden_cards_sim@, 13),
                        1,
                    );
                }
            }
            let d = self.deal(false, true);
            proof {
                lemma_draws_push(start.forbidden_cards_sim@, start.cards_remaining@, draws@, d);
            }
            draws.push(d);
            proof {
                assert(draws@.drop_last() == before_draws);
                assert(names(start.recorded_cards_dealer@) + dealt_names(draws@) =~= if d.out_of_cards {
                    names(start.recorded_cards_dealer@) + dealt_names(before_draws)
                } else {
                    (names(start.recorded_cards_dealer@) + dealt_names(before_draws)).push(
                        rank_name(d.rank as int),
                    )
                });
                assert(names(start.dealer_card_ids@) + dealt_ids(draws@) =~= if d.out_of_cards {
                    names(start.dealer_card_ids@) + dealt_ids(before_draws)
                } else {
                    (names(start.dealer_card_ids@) + dealt_ids(before_draws)).push(
                        card_id_text(rank_name(d.rank as int), suit_name(d.suit as int)),
                    )
                });
                assert(start.forbidden_cards_sim@ + dealt_cards(draws@) =~= if d.out_of_cards {
                    start.forbidden_cards_sim@ + dealt_cards(before_draws)
                } else {
                    (start.forbidden_cards_sim@ + dealt_cards(before_draws)).push((d.suit, d.rank))
                });
                assert forall|k: int| 0 <= k < draws@.len() implies #[trigger] dealer_total_before(
                    start,
                    draws@,
                    k,
                ) <= 17 by {
                    assert(draws@.take(k) =~= before_draws.take(k));
                    if k < before_draws.len() {
                        assert(dealer_total_before(start, draws@, k) == dealer_total_before(
                            start,
                            before_draws,
                            k,
                        ));
                    }
                }
                assert forall|k: int| 0 <= k < draws@.len() - 1 implies !(
                #[trigger] draws@[k]).out_of_cards by {
                    assert(draws@[k] == before_draws[k]);
                }
            }
            if d.out_of_cards {
                break;
            }
            proof {
                lemma_record_free_cards(before.forbidden_cards_sim@, (d.suit, d.rank), 13);
                lemma_room_push(
                    names(before.recorded_cards_dealer@),
                    rank_name(d.rank as int),
                    free_cards(self.forbidden_cards_sim@, 13),
                );
                assert forall|k: int| 0 <= k < draws@.len() implies !(
                #[trigger] draws@[k]).out_of_cards by {
                    if k < before_draws.len() {
                        assert(draws@[k] == before_draws[k]);
                    }
                }
                assert(some_card(draws@));
                assert(draws@.take(draws@.len() as int) =~= draws@);
                lemma_record_free_cards(self.forbidden_cards_sim@, (0i32, 0i32), 13);
                assert(self.forbidden_cards_sim@ == before.forbidden_cards_sim@.push((d.suit, d.rank)));
                assert(free_cards(self.forbidden_cards_sim@, 13) < free_cards(
                    before.forbidden_cards_sim@,
                    13,
                ));
            }
        }
        proof {
            if !some_card(draws@) {
                lemma_no_card_no_names(draws@);
                assert(names(start.recorded_cards_dealer@) + Seq::<Seq<char>>::empty() =~= names(
                    start.recorded_cards_dealer@,
                ));
            }
        }
        let dealer_total = self.dealer_hand_total;
        if dealer_total > 21 {
            self.stats.dealer_bust = true;
        } else {
            if dealer_total > self.player1_hand_total {
                self.stats.dealer_wins = true;
            } else if dealer_total == self.player1_hand_total {
                self.stats.player_dealer_tie = true;
            } else {
                self.stats.player_wins = true;
            }
        }
        draws
    }
}

/// Counts from zero to four over thirteen ranks add up to at most 52.
proof fn lemma_small_counts(counts: Seq<i32>)
    requires
        forall|i: int| 0 <= i < counts.len() ==> 0 <= #[trigger] counts[i] <= 4,
    ensures
        0 <= seq_total(counts) <= 4 * counts.len(),
    decreases counts.len(),
{
    if counts.len() > 0 {
        lemma_small_counts(counts.drop_last());
    }
}

impl GameTable {
    /// The chances shown for the table: the dealer's chances to win and to
    /// tie if the player stands, the chance that the player's next card
    /// busts, and the chance that it makes 21, all from the hand totals as
    /// they stand and the count of remaining cards. `None` where the
    /// player's total is too large to add a remaining card to, or where the
    /// dealer's denominator does not fit an `i128`.
    pub fn odds(&self) -> (odds: Option<TableOdds>)
        requires
            self.wf(),
        ensures
            ({
                let rem = self.cards_remaining@;
                let n = seq_total(rem);
                let pt = self.player1_hand_total as int;
                let dt = self.dealer_hand_total as int;
                let r = draw_budget(dt, outcome_values(), rem);
                let w = dealer_scaled(pt, dt, outcome_values(), rem, r);
                &&& odds is Some <==> (bust_defined(pt, rem) && next_blackjack_defined(pt, rem)
                    && falling(n, r) <= i128::MAX)
                &&& odds matches Some(o) ==> {
                    &&& o.dealer_wins.numerator == w.0
                    &&& o.dealer_wins.denominator == falling(n, r)
                    &&& o.tie.numerator == w.1
                    &&& o.tie.denominator == falling(n, r)
                    &&& (n == 0 ==> o.bust == zero_chance())
                    &&& (n != 0 ==> o.bust.numerator == bust_count(pt, rem, 13)
                        && o.bust.denominator == n)
                    &&& (n == 0 || pt >= 21 ==> o.next_blackjack == zero_chance())
                    &&& (n != 0 && pt < 21 ==> o.next_blackjack.numerator == blackjack_count(
                        rem,
                        21 - pt,
                    ) && o.next_blackjack.denominator == n)
                }
            }),
    {
        proof {
            assert forall|i: int| 0 <= i < self.cards_remaining@.len() implies 0
                <= #[trigger] self.cards_remaining@[i] <= 4 by {
                crate::draw::lemma_record_card(self.forbidden_cards_sim@, (0i32, 0i32), i);
            }
            lemma_small_counts(self.cards_remaining@);
            assert(counts_nonneg(self.cards_remaining@));
            lemma_nonneg_sums_fit(self.cards_remaining@);
        }
        let remaining = &self.cards_remaining;
        let outcomes = probability_dealer_outcomes(
            self.player1_hand_total,
            self.dealer_hand_total,
            remaining,
        );
        match outcomes {
            None => None,
            Some((dealer_wins, tie)) => {
                if !next_blackjack_in_range(self.player1_hand_total, remaining) {
                    return None;
                }
                let next_blackjack = probability_next_blackjack(self.player1_hand_total, remaining);
                if !bust_in_range(self.player1_hand_total, remaining) {
                    return None;
                }
                let bust = probability_busting(self.player1_hand_total, remaining);
                Some(TableOdds { dealer_wins, tie, bust, next_blackjack })
            },
        }
    }
}

/// A copy of the list of dealt cards.
fn copy_dealt(dealt: &Vec<(i32, i32)>) -> (copy: Vec<(i32, i32)>)
    ensures
        copy@ == dealt@,
{
    let mut copy: Vec<(i32, i32)> = Vec::new();
    let mut i: usize = 0;
    while i < dealt.len()
        invariant
            0 <= i <= dealt.len(),
            copy@ == dealt@.take(i as int),
        decreases dealt.len() - i,
    {
        copy.push(dealt[i]);
        i = i + 1;
        assert(copy@ =~= dealt@.take(i as int));
    }
    assert(dealt@.take(dealt.len() as int) =~= dealt@);
    copy
}

/// Thirteen counts of `4 * number_of_decks`.
fn fresh_deck(number_of_decks: i32) -> (counts: Vec<i32>)
    requires
        1 <= number_of_decks <= 1000,
    ensures
        counts@ == full_counts(number_of_decks),
{
    let mut counts: Vec<i32> = Vec::new();
    let mut i: usize = 0;
    while i < 13
        invariant
            0 <= i <= 13,
            1 <= number_of_decks <= 1000,
            counts@.len() == i,
            forall|j: int| 0 <= j < i ==> #[trigger] counts@[j] == 4 * number_of_decks,
        decreases 13 - i,
    {
        counts.push(4 * number_of_decks);
        i = i + 1;
    }
    assert(counts@ =~= full_counts(number_of_decks));
    counts
}

} // verus!
