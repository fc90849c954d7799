use blackjack_assistant::draw::{pair_dealt, player_turn, turn_from_picks};
use blackjack_assistant::game::{GameTable, OddsRefresh, Outcome, SimulatorStats};
use blackjack_assistant::hand::hand_total;
use blackjack_assistant::odds::Fraction;

fn all_cards() -> Vec<(i32, i32)> {
    let mut cards = Vec::new();
    for s in 0..4 {
        for r in 0..13 {
            cards.push((s, r));
        }
    }
    cards
}

const RANKS: [&str; 13] =
    ["2", "3", "4", "5", "6", "7", "8", "9", "10", "jack", "queen", "king", "ace"];
const SUITS: [&str; 4] = ["hearts", "spades", "diamonds", "clubs"];

#[test]
fn turn_from_fresh_deck() {
    for _ in 0..50 {
        let (id, value, suit, rank, out) = player_turn(vec![]);
        assert!(!out);
        assert!((0..4).contains(&suit));
        assert!((0..13).contains(&rank));
        assert_eq!(value, RANKS[rank as usize]);
        assert_eq!(id, format!("{}_of_{}", RANKS[rank as usize], SUITS[suit as usize]));
    }
}

#[test]
fn turn_avoids_dealt_cards() {
    let mut dealt = all_cards();
    dealt.retain(|&c| c != (2, 5));
    for _ in 0..5 {
        let (id, value, suit, rank, out) = player_turn(dealt.clone());
        assert!(!out);
        assert_eq!((suit, rank), (2, 5));
        assert_eq!(value, "7");
        assert_eq!(id, "7_of_diamonds");
    }
}

#[test]
fn picks_take_the_first_undealt_pick() {
    let dealt = vec![(0, 0), (1, 4)];
    let picks = vec![(1, 4), (0, 0), (3, 12), (2, 2)];
    let (id, value, suit, rank, out) = turn_from_picks(&dealt, &picks);
    assert!(!out);
    assert_eq!((suit, rank), (3, 12));
    assert_eq!(value, "ace");
    assert_eq!(id, "ace_of_clubs");
}

#[test]
fn picks_all_dealt_fall_back_to_deck_order() {
    let dealt = vec![(0, 0), (0, 1), (2, 7)];
    let picks = vec![(0, 0), (2, 7), (0, 1)];
    let (id, value, suit, rank, out) = turn_from_picks(&dealt, &picks);
    assert!(!out);
    assert_eq!((suit, rank), (0, 2));
    assert_eq!(value, "4");
    assert_eq!(id, "4_of_hearts");
    let (_, value, suit, rank, out) = turn_from_picks(&dealt, &vec![]);
    assert!(!out);
    assert_eq!((suit, rank, value.as_str()), (0, 2, "4"));
}

#[test]
fn picks_from_an_empty_deck() {
    let picks = vec![(1, 1), (3, 3)];
    let (id, value, _, _, out) = turn_from_picks(&all_cards(), &picks);
    assert!(out);
    assert_eq!(value, "-1");
    assert_eq!(id, "-1_of_None");
}

#[test]
fn turn_from_empty_deck() {
    let (id, value, suit, rank, out) = player_turn(all_cards());
    assert!(out);
    assert_eq!(value, "-1");
    assert_eq!(id, "-1_of_None");
    assert!((0..4).contains(&suit) && (0..13).contains(&rank));
}

#[test]
fn dealt_lookup() {
    let dealt = vec![(0, 1), (3, 12)];
    assert!(pair_dealt(&dealt, 3, 12));
    assert!(!pair_dealt(&dealt, 12, 3));
    assert!(!pair_dealt(&vec![], 0, 0));
}

#[test]
fn new_table() {
    let t = GameTable::new();
    assert!(t.start_screen && !t.game_sim && !t.card_counter && !t.secret_pop);
    assert_eq!(t.cards_remaining, vec![4; 13]);
    assert!(t.forbidden_cards_sim.is_empty());
    assert_eq!(t.stats, SimulatorStats::default());
    assert_eq!(t.player1_hand_total, 0);
}

#[test]
fn screens() {
    let mut t = GameTable::new();
    t.play_round();
    assert!(t.game_sim && !t.start_screen && !t.card_counter);
    t.escape();
    assert!(t.start_screen && t.game_sim);
    t.get_help();
    assert!(t.card_counter && !t.game_sim && !t.start_screen);
    t.toggle_secret();
    assert!(t.secret_pop);
    t.toggle_secret();
    assert!(!t.secret_pop);
    t.return_home();
    assert!(t.start_screen && !t.game_sim && !t.card_counter);
}

fn check_cards(t: &GameTable) {
    assert_eq!(t.recorded_cards_player1.len(), t.player1_card_ids.len());
    assert_eq!(t.recorded_cards_dealer.len(), t.dealer_card_ids.len());
    let mut seen = t.forbidden_cards_sim.clone();
    seen.sort();
    seen.dedup();
    assert_eq!(seen.len(), t.forbidden_cards_sim.len(), "a card was dealt twice");
    for r in 0..13 {
        let dealt = t.forbidden_cards_sim.iter().filter(|c| c.1 == r).count() as i32;
        assert_eq!(t.cards_remaining[r as usize], 4 - dealt);
    }
}

#[test]
fn new_round_deals_three_cards() {
    let mut t = GameTable::new();
    t.play_round();
    let report = t.new_round();
    assert_eq!(report.player_draws.len(), 2);
    assert_eq!(report.dealer_draws.len(), 1);
    assert_eq!(report.odds, OddsRefresh::Recomputed);
    assert_eq!(t.recorded_cards_player1.len(), 2);
    assert_eq!(t.recorded_cards_dealer.len(), 1);
    assert_eq!(t.forbidden_cards_sim.len(), 3);
    assert_eq!(t.cards_remaining.iter().sum::<i32>(), 49);
    assert_eq!(t.player1_hand_total, hand_total(t.recorded_cards_player1.clone()));
    assert_eq!(t.dealer_hand_total, hand_total(t.recorded_cards_dealer.clone()));
    assert_eq!(t.stats.natural_blackjack, t.player1_hand_total == 21);
    for (i, d) in report.player_draws.iter().enumerate() {
        assert_eq!(t.recorded_cards_player1[i], RANKS[d.rank as usize]);
        assert_eq!(
            t.player1_card_ids[i],
            format!("{}_of_{}", RANKS[d.rank as usize], SUITS[d.suit as usize])
        );
    }
    check_cards(&t);
}

#[test]
fn start_game_keeps_hands() {
    let mut t = GameTable::new();
    t.start_game();
    t.start_game();
    assert_eq!(t.recorded_cards_player1.len(), 4);
    assert_eq!(t.recorded_cards_dealer.len(), 2);
    assert_eq!(t.cards_remaining.iter().sum::<i32>(), 46);
    check_cards(&t);
}

#[test]
fn hit_adds_a_card() {
    let mut t = GameTable::new();
    t.new_round();
    let before = t.recorded_cards_player1.len();
    let report = t.hit();
    assert_eq!(report.odds, OddsRefresh::Recomputed);
    assert_eq!(t.recorded_cards_player1.len(), before + 1);
    assert_eq!(t.player1_hand_total, hand_total(t.recorded_cards_player1.clone()));
    assert_eq!(t.stats.player_bust, t.player1_hand_total > 21);
    check_cards(&t);
}

#[test]
fn stand_plays_the_dealer() {
    for _ in 0..30 {
        let mut t = GameTable::new();
        t.new_round();
        let draws = t.stand();
        assert!(t.dealer_hand_total > 17);
        assert!(draws.iter().all(|d| !d.out_of_cards));
        let d = t.dealer_hand_total;
        let p = t.player1_hand_total;
        assert_eq!(t.stats.dealer_bust, d > 21);
        assert_eq!(t.stats.dealer_wins, d <= 21 && d > p);
        assert_eq!(t.stats.player_dealer_tie, d <= 21 && d == p);
        assert_eq!(t.stats.player_wins, d <= 21 && d < p);
        check_cards(&t);
    }
}

#[test]
fn stand_with_no_cards_left() {
    let mut t = GameTable::new();
    t.forbidden_cards_sim = all_cards();
    t.cards_remaining = vec![0; 13];
    t.dealer_hand_total = 5;
    t.player1_hand_total = 19;
    let draws = t.stand();
    assert_eq!(draws.len(), 1);
    assert!(draws[0].out_of_cards);
    assert!(t.stats.out_of_cards);
    assert!(t.stats.player_wins);
}

#[test]
fn dealing_runs_out_of_cards() {
    let mut t = GameTable::new();
    for _ in 0..20 {
        t.new_round();
    }
    assert!(t.stats.out_of_cards);
    assert_eq!(t.forbidden_cards_sim.len(), 52);
    check_cards(&t);
    let report = t.new_round();
    assert_eq!(report.odds, OddsRefresh::Cleared);
    assert!(t.recorded_cards_player1.is_empty());
}

#[test]
fn new_game_forgets_dealt_cards() {
    let mut t = GameTable::new();
    t.new_round();
    assert_eq!(t.new_game(), OddsRefresh::Cleared);
    assert!(t.forbidden_cards_sim.is_empty());
    assert_eq!(t.cards_remaining, vec![4; 13]);
    assert!(t.recorded_cards_dealer.is_empty() && t.player1_card_ids.is_empty());
}

#[test]
fn popup_round_counts_cards_off() {
    let mut t = GameTable::new();
    t.new_round();
    let remaining = t.cards_remaining.clone();
    let report = t.popup_new_round(Outcome::DealerWins);
    assert_eq!(report.odds, OddsRefresh::Recomputed);
    assert_eq!(t.cards_remaining.iter().sum::<i32>(), remaining.iter().sum::<i32>() - 3);
    assert_eq!(t.forbidden_cards_sim.len(), 6);
    assert_eq!(t.recorded_cards_player1.len(), 2);
    check_cards(&t);
    t.popup_new_round(Outcome::PlayerWins);
    assert_eq!(t.cards_remaining.iter().sum::<i32>(), 43);
    check_cards(&t);
}

#[test]
fn closing_windows() {
    let mut t = GameTable::new();
    t.stats.player_wins = true;
    t.stats.natural_blackjack = true;
    t.close_popup(Outcome::PlayerWins);
    assert!(!t.stats.player_wins && t.stats.natural_blackjack);
    t.close_popup(Outcome::Blackjack);
    assert!(!t.stats.natural_blackjack);
}

#[test]
fn out_of_cards_new_game_deals_again() {
    let mut t = GameTable::new();
    t.stats.out_of_cards = true;
    let report = t.out_of_cards_new_game();
    assert_eq!(report.odds, OddsRefresh::Cleared);
    assert!(t.stats.out_of_cards);
    assert_eq!(t.forbidden_cards_sim.len(), 3);
    assert_eq!(t.cards_remaining.iter().sum::<i32>(), 49);
    assert_eq!(t.recorded_cards_player1.len(), 2);
    assert_eq!(t.player1_hand_total, hand_total(t.recorded_cards_player1.clone()));
    check_cards(&t);
}

#[test]
fn out_of_cards_new_game_after_a_full_deck() {
    let mut t = GameTable::new();
    for _ in 0..20 {
        t.new_round();
    }
    assert!(t.stats.out_of_cards);
    let report = t.out_of_cards_new_game();
    assert!(report.player_draws.iter().all(|d| !d.out_of_cards));
    assert_eq!(t.forbidden_cards_sim.len(), 3);
    check_cards(&t);
}

#[test]
fn counting_helper_adds_chosen_cards() {
    let mut t = GameTable::new();
    t.get_help();
    assert_eq!(t.add_card(), OddsRefresh::Unchanged);
    assert!(t.recorded_cards_dealer.is_empty());
    t.choose_player(0);
    t.choose_suit(2);
    t.choose_number(9);
    assert_eq!(t.add_card(), OddsRefresh::Unchanged);
    assert_eq!(t.recorded_cards_dealer, vec!["jack".to_string()]);
    assert_eq!(t.dealer_card_ids, vec!["jack_of_diamonds".to_string()]);
    t.choose_player(1);
    t.choose_suit(0);
    t.choose_number(12);
    assert_eq!(t.add_card(), OddsRefresh::Unchanged);
    t.choose_number(8);
    assert_eq!(t.add_card(), OddsRefresh::Recomputed);
    assert_eq!(t.recorded_cards_player1, vec!["ace".to_string(), "10".to_string()]);
    assert_eq!(t.player1_card_ids[1], "10_of_hearts");
    // adding a card counts its hand again
    assert_eq!(t.player1_hand_total, 21);
    assert_eq!(t.dealer_hand_total, 10);
    let o = t.odds().unwrap();
    // every card busts a hand of 21
    assert_eq!(o.bust, Fraction { numerator: 52, denominator: 52 });
    assert_eq!(o.next_blackjack, Fraction { numerator: 0, denominator: 1 });
    // counting never takes cards off the deck
    assert_eq!(t.cards_remaining, vec![4; 13]);
}

#[test]
fn counting_helper_resets() {
    let mut t = GameTable::new();
    t.choose_player(0);
    t.choose_suit(1);
    t.choose_number(0);
    t.add_card();
    t.choose_player(1);
    t.add_card();
    t.reset_dealer();
    assert!(t.recorded_cards_dealer.is_empty() && t.dealer_card_ids.is_empty());
    assert_eq!(t.recorded_cards_player1.len(), 1);
    t.reset_player();
    assert!(t.recorded_cards_player1.is_empty());
    t.add_card();
    assert_eq!(t.counter_new_round(), OddsRefresh::Cleared);
    assert!(t.recorded_cards_player1.is_empty());
    t.choose_player(1);
    t.add_card();
    assert_eq!(t.counter_new_game(), OddsRefresh::Cleared);
    assert!(t.recorded_cards_player1.is_empty() && t.recorded_cards_dealer.is_empty());
    assert_eq!(t.cards_remaining, vec![4; 13]);
}

#[test]
fn table_odds_on_full_deck() {
    let mut t = GameTable::new();
    t.player1_hand_total = 20;
    t.dealer_hand_total = 18;
    let o = t.odds().unwrap();
    assert_eq!(o.dealer_wins, Fraction { numerator: 0, denominator: 1 });
    assert_eq!(o.tie, Fraction { numerator: 0, denominator: 1 });
    assert_eq!(o.bust, Fraction { numerator: 48, denominator: 52 });
    assert_eq!(o.next_blackjack, Fraction { numerator: 4, denominator: 52 });
    t.player1_hand_total = 10;
    let o = t.odds().unwrap();
    assert_eq!(o.next_blackjack, Fraction { numerator: 4, denominator: 52 });
    t.player1_hand_total = 19;
    let o = t.odds().unwrap();
    assert_eq!(o.next_blackjack, Fraction { numerator: 4, denominator: 52 });
    t.player1_hand_total = 11;
    let o = t.odds().unwrap();
    assert_eq!(o.next_blackjack, Fraction { numerator: 16, denominator: 52 });
    assert_eq!(o.bust, Fraction { numerator: 0, denominator: 52 });
}

#[test]
fn counter_new_game_resets_the_count() {
    let mut t = GameTable::new();
    t.new_round();
    assert_eq!(t.cards_remaining.iter().sum::<i32>(), 49);
    t.get_help();
    assert_eq!(t.counter_new_game(), OddsRefresh::Cleared);
    assert_eq!(t.cards_remaining, vec![4; 13]);
    assert!(t.forbidden_cards_sim.is_empty());
    assert!(t.recorded_cards_player1.is_empty() && t.dealer_card_ids.is_empty());
    check_cards(&t);
}

#[test]
fn counting_helper_counts_each_added_card() {
    let mut t = GameTable::new();
    t.get_help();
    t.choose_player(1);
    t.choose_suit(3);
    t.choose_number(12);
    t.add_card();
    assert_eq!(t.player1_hand_total, 11);
    t.add_card();
    assert_eq!(t.player1_hand_total, 12);
    t.choose_number(4);
    t.add_card();
    assert_eq!(t.player1_hand_total, 18);
    assert_eq!(t.player1_hand_total, hand_total(t.recorded_cards_player1.clone()));
    assert_eq!(t.dealer_hand_total, 0);
}
