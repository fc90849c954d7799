use blackjack_assistant::dealer::{probability_dealer_outcomes, probability_dealer_win};
use blackjack_assistant::odds::{
    bust_in_range, next_blackjack_in_range, probability_busting, probability_next_blackjack, total_of, Fraction,
};

fn frac(numerator: i128, denominator: i128) -> Fraction {
    Fraction { numerator, denominator }
}

fn full_deck() -> Vec<i32> {
    vec![4; 13]
}

fn value(f: Fraction) -> f64 {
    f.numerator as f64 / f.denominator as f64
}

#[test]
fn deck_total() {
    assert_eq!(total_of(&full_deck()), 52);
    assert_eq!(total_of(&vec![]), 0);
    assert_eq!(total_of(&vec![3, -1, 2]), 4);
}

#[test]
fn bust_on_20() {
    // Every card but an ace (then worth one) busts 20.
    assert_eq!(probability_busting(20, &full_deck()), frac(48, 52));
}

#[test]
fn no_bust_on_10() {
    assert_eq!(probability_busting(10, &full_deck()), frac(0, 52));
}

#[test]
fn bust_on_15() {
    // 7, 8, 9, 10, jack, queen, king bust 15: seven ranks.
    assert_eq!(probability_busting(15, &full_deck()), frac(28, 52));
}

#[test]
fn bust_with_empty_deck() {
    assert_eq!(probability_busting(20, &vec![0; 13]), frac(0, 1));
}

#[test]
fn bust_reads_thirteen_counts_at_most() {
    let mut counts = full_deck();
    counts.push(100);
    // the fourteenth count adds to the deck but is never a busting card
    assert_eq!(probability_busting(20, &counts), frac(48, 152));
}

#[test]
fn next_blackjack_on_19() {
    // needs 2: the twos, index 0
    let counts = vec![1, 2, 3, 4, 5, 6, 7, 8, 9, 10, 11, 12, 13];
    assert_eq!(probability_next_blackjack(19, &counts), frac(1, 91));
    let mut one_two = vec![0; 13];
    one_two[0] = 1;
    one_two[5] = 3;
    assert_eq!(probability_next_blackjack(19, &one_two), frac(1, 4));
}

#[test]
fn next_blackjack_on_11() {
    // needs 10: 10, jack, queen, king (indices 8 to 11)
    assert_eq!(probability_next_blackjack(11, &full_deck()), frac(16, 52));
    let counts = vec![1, 2, 3, 4, 5, 6, 7, 8, 9, 10, 11, 12, 13];
    assert_eq!(probability_next_blackjack(11, &counts), frac(9 + 10 + 11 + 12, 91));
}

#[test]
fn next_blackjack_needs_an_ace() {
    // 20 needs an ace counted as 1, 10 an ace counted as 11: index 12
    let counts = vec![3, 4, 4, 4, 4, 4, 4, 4, 4, 4, 4, 4, 2];
    assert_eq!(probability_next_blackjack(20, &counts), frac(2, 49));
    assert_eq!(probability_next_blackjack(10, &counts), frac(2, 49));
}

#[test]
fn next_blackjack_on_14() {
    // needs 7: index 5
    let counts = vec![1, 2, 3, 4, 5, 6, 7, 8, 9, 10, 11, 12, 13];
    assert_eq!(probability_next_blackjack(14, &counts), frac(6, 91));
}

#[test]
fn next_blackjack_done_or_empty() {
    assert_eq!(probability_next_blackjack(21, &full_deck()), frac(0, 1));
    assert_eq!(probability_next_blackjack(25, &full_deck()), frac(0, 1));
    assert_eq!(probability_next_blackjack(12, &vec![0; 13]), frac(0, 1));
    assert_eq!(probability_next_blackjack(5, &full_deck()), frac(0, 52));
}

#[test]
fn next_blackjack_range() {
    assert!(next_blackjack_in_range(11, &full_deck()));
    assert!(next_blackjack_in_range(19, &full_deck()));
    assert!(next_blackjack_in_range(10, &full_deck()));
    assert!(!next_blackjack_in_range(10, &vec![4; 12]));
    assert!(next_blackjack_in_range(19, &vec![4; 1]));
    assert!(!next_blackjack_in_range(18, &vec![4; 1]));
    assert!(next_blackjack_in_range(10, &vec![0; 13]));
}

#[test]
fn dealer_standing_outcomes() {
    let deck = full_deck();
    assert_eq!(probability_dealer_outcomes(17, 18, &deck), Some((frac(1, 1), frac(0, 1))));
    assert_eq!(probability_dealer_outcomes(19, 19, &deck), Some((frac(0, 1), frac(1, 1))));
    assert_eq!(probability_dealer_outcomes(20, 18, &deck), Some((frac(0, 1), frac(0, 1))));
    assert_eq!(probability_dealer_outcomes(10, 22, &deck), Some((frac(0, 1), frac(0, 1))));
}

#[test]
fn dealer_with_one_card_left() {
    // one card worth 10 (index 9)
    let mut counts = vec![0; 13];
    counts[9] = 1;
    assert_eq!(probability_dealer_outcomes(19, 10, &counts), Some((frac(1, 1), frac(0, 1))));
    assert_eq!(probability_dealer_outcomes(20, 10, &counts), Some((frac(0, 1), frac(1, 1))));
}

#[test]
fn dealer_with_two_cards_left() {
    // a jack (index 9) and an ace (index 12)
    let mut counts = vec![0; 13];
    counts[9] = 1;
    counts[12] = 1;
    // drawing the jack makes 20, drawing the ace makes 21
    assert_eq!(probability_dealer_outcomes(18, 10, &counts), Some((frac(2, 2), frac(0, 2))));
    assert_eq!(probability_dealer_outcomes(20, 10, &counts), Some((frac(1, 2), frac(1, 2))));
}

#[test]
fn dealer_draws_a_two_worth_two() {
    // one 2 left (index 0): 16 + 2 = 18 beats 17
    let mut counts = vec![0; 13];
    counts[0] = 1;
    assert_eq!(probability_dealer_outcomes(17, 16, &counts), Some((frac(1, 1), frac(0, 1))));
    assert_eq!(probability_dealer_outcomes(18, 16, &counts), Some((frac(0, 1), frac(1, 1))));
}

#[test]
fn dealer_ace_counts_one_when_eleven_busts() {
    // an ace and a 5 left, dealer on 12: the ace makes 13 (not 23), then
    // the 5 makes 18; the 5 first makes 17
    let mut counts = vec![0; 13];
    counts[3] = 1;
    counts[12] = 1;
    assert_eq!(probability_dealer_outcomes(17, 12, &counts), Some((frac(1, 2), frac(1, 2))));
    // on 6 the ace counts 11: 17
    let mut ace = vec![0; 13];
    ace[12] = 1;
    assert_eq!(probability_dealer_outcomes(16, 6, &ace), Some((frac(1, 1), frac(0, 1))));
}

#[test]
fn dealer_with_empty_deck() {
    assert_eq!(probability_dealer_outcomes(18, 12, &vec![0; 13]), Some((frac(0, 1), frac(0, 1))));
}

/// The dealer's chances by direct recursion over the remaining cards, an
/// ace counting 1 where 11 would bust.
fn expected_dealer(player: i32, dealer: i32, counts: &Vec<i32>, vals: &[i32]) -> (f64, f64) {
    if dealer > 21 {
        return (0.0, 0.0);
    }
    if dealer >= 17 {
        return if dealer > player {
            (1.0, 0.0)
        } else if dealer == player {
            (0.0, 1.0)
        } else {
            (0.0, 0.0)
        };
    }
    let total: i32 = counts.iter().sum();
    let mut win = 0.0;
    let mut tie = 0.0;
    for i in 0..counts.len() {
        if counts[i] == 0 {
            continue;
        }
        let mut next = counts.clone();
        next[i] -= 1;
        let p = counts[i] as f64 / total as f64;
        let drawn = if vals[i] == 11 && dealer + 11 > 21 { 1 } else { vals[i] };
        let (w, t) = expected_dealer(player, dealer + drawn, &next, vals);
        win += p * w;
        tie += p * t;
    }
    (win, tie)
}

#[test]
fn dealer_from_full_deck_matches_recursion() {
    let vals = [2, 3, 4, 5, 6, 7, 8, 9, 10, 10, 10, 10, 11];
    let deck = full_deck();
    for &(player, dealer) in &[(20, 16), (18, 12), (21, 10), (15, 17), (19, 14)] {
        let (w, t) = probability_dealer_outcomes(player, dealer, &deck).unwrap();
        let (ew, et) = expected_dealer(player, dealer, &deck, &vals);
        assert!((value(w) - ew).abs() < 1e-9, "win {} {}", value(w), ew);
        assert!((value(t) - et).abs() < 1e-9, "tie {} {}", value(t), et);
        assert!(w.numerator + t.numerator <= w.denominator);
    }
}

#[test]
fn dealer_win_with_own_values() {
    // two cards: a 6 and a 2, dealer on 12
    let vals = vec![6, 2];
    let counts = vec![1, 1];
    // 12 + 6 = 18; 12 + 2 + 6 = 20
    let w = probability_dealer_win(17, &vals, &counts, 12).unwrap();
    assert_eq!(w, frac(2, 2));
    let w = probability_dealer_win(19, &vals, &counts, 12).unwrap();
    assert_eq!(w, frac(1, 2));
    assert_eq!(probability_dealer_win(19, &vals, &counts, 20), Some(frac(1, 1)));
    assert_eq!(probability_dealer_win(20, &vals, &counts, 20), Some(frac(0, 1)));
    assert_eq!(probability_dealer_win(20, &vals, &counts, 23), Some(frac(0, 1)));
}

#[test]
fn dealer_win_with_zero_values() {
    // cards worth nothing never bring the dealer to 17
    let vals = vec![0, 0];
    let counts = vec![2, 1];
    assert_eq!(probability_dealer_win(10, &vals, &counts, 12), Some(frac(0, 6)));
}

#[test]
fn dealer_win_matches_recursion() {
    let vals = [2, 3, 4, 5, 6, 7, 8, 9, 10, 10, 10, 10, 11];
    let deck = full_deck();
    let w = probability_dealer_win(18, &vals.to_vec(), &deck, 15).unwrap();
    let (ew, _) = expected_dealer(18, 15, &deck, &vals);
    assert!((value(w) - ew).abs() < 1e-9);
}

#[test]
fn dealer_denominator_too_large() {
    // a big deck and a low dealer total: the common denominator overflows
    let counts = vec![100000; 13];
    assert_eq!(probability_dealer_outcomes(20, 0, &counts), None);
}

#[test]
fn bust_range() {
    let mut twos = vec![0; 13];
    twos[0] = 4;
    assert!(bust_in_range(i32::MAX - 5, &twos));
    assert_eq!(probability_busting(i32::MAX - 5, &twos), frac(4, 4));
    assert!(!bust_in_range(i32::MAX - 5, &full_deck()));
    assert!(bust_in_range(i32::MAX, &vec![0; 13]));
    assert!(bust_in_range(20, &full_deck()));
}

#[test]
fn standing_dealer_ignores_the_deck() {
    assert_eq!(probability_dealer_outcomes(10, 18, &vec![-1, 7]), Some((frac(1, 1), frac(0, 1))));
    assert_eq!(probability_dealer_win(10, &vec![], &vec![-3], 19), Some(frac(1, 1)));
}

#[test]
fn bust_grows_with_the_hand() {
    let deck = full_deck();
    let mut last = 0;
    for hand in 0..=21 {
        let chance = probability_busting(hand, &deck);
        assert_eq!(chance.denominator, 52);
        assert!(chance.numerator >= last);
        if hand <= 11 {
            assert_eq!(chance.numerator, 0);
        }
        last = chance.numerator;
    }
    assert_eq!(last, 52);
}
