//! How the chances follow the hand-total rule: every rank the assistant
//! deals is worth its face value, and the bust, 21 and dealer chances count
//! exactly the cards that the hand total would take over 21, to 21, or to
//! the dealer's next total.

use vstd::prelude::*;
use crate::cards::{card_points, StringToInt};
use crate::hand::{card_score, hand_value, hand_points, ace_count, lemma_push};
use crate::draw::rank_name;
use crate::odds::{bust_table_value, busts, bust_count, blackjack_count};
use crate::dealer::{draw_total, outcome_values};

verus! {

/// Every rank is worth its face value: 2 to 10 their number, jack, queen
/// and king ten, the ace eleven (before it is lowered); the named ranks
/// other than the ace have that value in the card table.
pub proof fn lemma_rank_scores(i: int)
    requires
        0 <= i < 13,
    ensures
        card_score(rank_name(i)) == if i <= 8 {
            i + 2
        } else if i <= 11 {
            10
        } else {
            11
        },
        i < 12 ==> card_points(rank_name(i)) == Some(card_score(rank_name(i))),
{
    reveal_strlit("ace_low");
    reveal_strlit("ace_high");
    reveal_strlit("ace");
    reveal_strlit("2");
    reveal_strlit("3");
    reveal_strlit("4");
    reveal_strlit("5");
    reveal_strlit("6");
    reveal_strlit("7");
    reveal_strlit("8");
    reveal_strlit("9");
    reveal_strlit("10");
    reveal_strlit("jack");
    reveal_strlit("queen");
    reveal_strlit("king");
    assert("ace_low"@.len() == 7 && "ace_low"@[0] == 'a');
    assert("ace_high"@.len() == 8 && "ace_high"@[0] == 'a');
    assert("ace"@.len() == 3 && "ace"@[0] == 'a');
    assert("2"@.len() == 1 && "2"@[0] == '2');
    assert("3"@.len() == 1 && "3"@[0] == '3');
    assert("4"@.len() == 1 && "4"@[0] == '4');
    assert("5"@.len() == 1 && "5"@[0] == '5');
    assert("6"@.len() == 1 && "6"@[0] == '6');
    assert("7"@.len() == 1 && "7"@[0] == '7');
    assert("8"@.len() == 1 && "8"@[0] == '8');
    assert("9"@.len() == 1 && "9"@[0] == '9');
    assert("10"@.len() == 2 && "10"@[0] == '1');
    assert("jack"@.len() == 4 && "jack"@[0] == 'j');
    assert("queen"@.len() == 5 && "queen"@[0] == 'q');
    assert("king"@.len() == 4 && "king"@[0] == 'k');
}

/// The standard converter values every named rank at its face value.
pub proof fn lemma_standard_converter(converter: StringToInt, i: int)
    requires
        converter.is_standard(),
        0 <= i < 12,
    ensures
        converter.value_of(rank_name(i)) == Some(card_score(rank_name(i)) as i32),
{
    lemma_rank_scores(i);
    reveal_strlit("ace_low");
    reveal_strlit("ace_high");
    reveal_strlit("2");
    reveal_strlit("3");
    reveal_strlit("4");
    reveal_strlit("5");
    reveal_strlit("6");
    reveal_strlit("7");
    reveal_strlit("8");
    reveal_strlit("9");
    reveal_strlit("10");
    reveal_strlit("jack");
    reveal_strlit("queen");
    reveal_strlit("king");
    assert("ace_low"@.len() == 7);
    assert("ace_high"@.len() == 8);
    assert("2"@.len() == 1 && "2"@[0] == '2');
    assert("3"@.len() == 1 && "3"@[0] == '3');
    assert("4"@.len() == 1 && "4"@[0] == '4');
    assert("5"@.len() == 1 && "5"@[0] == '5');
    assert("6"@.len() == 1 && "6"@[0] == '6');
    assert("7"@.len() == 1 && "7"@[0] == '7');
    assert("8"@.len() == 1 && "8"@[0] == '8');
    assert("9"@.len() == 1 && "9"@[0] == '9');
    assert("10"@.len() == 2);
    assert("jack"@.len() == 4 && "jack"@[0] == 'j');
    assert("queen"@.len() == 5);
    assert("king"@.len() == 4 && "king"@[0] == 'k');
}

/// The card values behind the bust chance and behind the dealer's chances
/// are the ranks' own values.
pub proof fn lemma_table_values(i: int)
    requires
        0 <= i < 13,
    ensures
        bust_table_value(i) == card_score(rank_name(i)),
        outcome_values()[i] == card_score(rank_name(i)),
{
    lemma_rank_scores(i);
}

/// Adding a rank to a hand without aces gives the total that `draw_total`
/// gives: the card's value, an ace counting one exactly when eleven would
/// take the hand over 21. So a card busts such a hand exactly when the new
/// hand total is over 21.
pub proof fn lemma_hard_draw(hand: Seq<Seq<char>>, i: int)
    requires
        ace_count(hand) == 0,
        0 <= i < 13,
    ensures
        hand_value(hand) == hand_points(hand),
        hand_value(hand.push(rank_name(i))) == draw_total(hand_value(hand), card_score(rank_name(i))),
        busts(hand_value(hand), card_score(rank_name(i))) == (hand_value(hand.push(rank_name(i)))
            > 21),
{
    lemma_rank_scores(i);
    lemma_push(hand, rank_name(i));
    reveal_strlit("ace");
    assert("ace"@.len() == 3);
    let p = hand_points(hand);
    if i == 12 {
        assert(rank_name(i) == "ace"@);
        reveal_with_fuel(crate::hand::soften, 2);
        assert(crate::hand::soften(p + 11, 1) == if p + 11 > 21 { p + 1 } else { p + 11 });
    } else {
        assert(rank_name(i).len() != 3 || rank_name(i)[0] != 'a') by {
            reveal_strlit("2");
            reveal_strlit("3");
            reveal_strlit("4");
            reveal_strlit("5");
            reveal_strlit("6");
            reveal_strlit("7");
            reveal_strlit("8");
            reveal_strlit("9");
            reveal_strlit("10");
            reveal_strlit("jack");
            reveal_strlit("queen");
            reveal_strlit("king");
        }
    }
}

/// How many of the remaining cards of the first `k` ranks take `hand` over 21.
pub open spec fn cards_over_21(hand: Seq<Seq<char>>, counts: Seq<i32>, k: int) -> int
    decreases k,
{
    if k <= 0 {
        0
    } else {
        cards_over_21(hand, counts, k - 1) + if hand_value(hand.push(rank_name(k - 1))) > 21 {
            counts[k - 1] as int
        } else {
            0int
        }
    }
}

/// How many of the remaining cards of the first `k` ranks bring `hand` to
/// exactly 21.
pub open spec fn cards_making_21(hand: Seq<Seq<char>>, counts: Seq<i32>, k: int) -> int
    decreases k,
{
    if k <= 0 {
        0
    } else {
        cards_making_21(hand, counts, k - 1) + if hand_value(hand.push(rank_name(k - 1))) == 21 {
            counts[k - 1] as int
        } else {
            0int
        }
    }
}

/// The bust count of a hand without aces is the number of remaining cards
/// that the hand total says would take it over 21.
pub proof fn lemma_bust_count_by_hand(hand: Seq<Seq<char>>, counts: Seq<i32>, k: int)
    requires
        ace_count(hand) == 0,
        0 <= k <= 13,
    ensures
        bust_count(hand_value(hand), counts, k) == cards_over_21(hand, counts, k),
    decreases k,
{
    if k > 0 {
        lemma_bust_count_by_hand(hand, counts, k - 1);
        lemma_table_values(k - 1);
        lemma_hard_draw(hand, k - 1);
    }
}

/// The 21 count of a hand without aces under 21 is the number of remaining
/// cards that the hand total says would bring it to exactly 21.
pub proof fn lemma_blackjack_count_by_hand(hand: Seq<Seq<char>>, counts: Seq<i32>)
    requires
        ace_count(hand) == 0,
        hand_value(hand) < 21,
        counts.len() >= 13,
    ensures
        blackjack_count(counts, 21 - hand_value(hand)) == cards_making_21(hand, counts, 13),
{
    lemma_hard_draw(hand, 0);
    lemma_rank_scores(0);
    lemma_hard_draw(hand, 1);
    lemma_rank_scores(1);
    lemma_hard_draw(hand, 2);
    lemma_rank_scores(2);
    lemma_hard_draw(hand, 3);
    lemma_rank_scores(3);
    lemma_hard_draw(hand, 4);
    lemma_rank_scores(4);
    lemma_hard_draw(hand, 5);
    lemma_rank_scores(5);
    lemma_hard_draw(hand, 6);
    lemma_rank_scores(6);
    lemma_hard_draw(hand, 7);
    lemma_rank_scores(7);
    lemma_hard_draw(hand, 8);
    lemma_rank_scores(8);
    lemma_hard_draw(hand, 9);
    lemma_rank_scores(9);
    lemma_hard_draw(hand, 10);
    lemma_rank_scores(10);
    lemma_hard_draw(hand, 11);
    lemma_rank_scores(11);
    lemma_hard_draw(hand, 12);
    lemma_rank_scores(12);
    reveal_with_fuel(cards_making_21, 14);
}

/// The dealer's next total after drawing a rank is what the hand total of
/// a dealer's hand without aces becomes with that card.
pub proof fn lemma_dealer_draw_by_hand(hand: Seq<Seq<char>>, i: int)
    requires
        ace_count(hand) == 0,
        0 <= i < 13,
    ensures
        draw_total(hand_value(hand), outcome_values()[i] as int) == hand_value(hand.push(rank_name(i))),
{
    lemma_table_values(i);
    lemma_hard_draw(hand, i);
}

/// A dealer on 17 to 21 stands: the chances are a sure win over a lower
/// player total, a sure tie on an equal one, and nothing otherwise,
/// whatever cards remain; a dealer over 21 has busted.
pub proof fn lemma_dealer_stands(player: int, dealer: int, vals: Seq<i32>, counts: Seq<i32>, r: nat)
    requires
        dealer >= 17,
    ensures
        ({
            let w = crate::dealer::dealer_scaled(player, dealer, vals, counts, r);
            let f = crate::dealer::falling(crate::odds::seq_total(counts), r);
            &&& dealer > 21 ==> w == (0int, 0int)
            &&& dealer <= 21 && dealer > player ==> w == (f, 0int)
            &&& dealer <= 21 && dealer == player ==> w == (0int, f)
            &&& dealer <= 21 && dealer < player ==> w == (0int, 0int)
        }),
{
}

} // verus!
