//! The total of a blackjack hand, with aces counted high until the hand
//! would bust.

use vstd::prelude::*;
use crate::cards::{card_points, StringToInt};

verus! {

/// The names of the cards in a hand, as character sequences.
pub open spec fn names(hand: Seq<String>) -> Seq<Seq<char>> {
    hand.map_values(|card: String| card@)
}

/// An "ace" in a hand is first counted as a high ace.
pub open spec fn is_ace(name: Seq<char>) -> bool {
    name == "ace"@
}

/// The points a card adds to a hand before any ace is lowered: eleven for
/// an ace, its value for a known card name, nothing for an unknown name.
pub open spec fn card_score(name: Seq<char>) -> int {
    if is_ace(name) {
        11
    } else {
        match card_points(name) {
            Some(v) => v,
            None => 0,
        }
    }
}

/// The hand's points with every ace counted high.
pub open spec fn hand_points(hand: Seq<Seq<char>>) -> int
    decreases hand.len(),
{
    if hand.len() == 0 {
        0
    } else {
        hand_points(hand.drop_last()) + card_score(hand.last())
    }
}

/// How many cards of the hand are aces.
pub open spec fn ace_count(hand: Seq<Seq<char>>) -> int
    decreases hand.len(),
{
    if hand.len() == 0 {
        0
    } else {
        ace_count(hand.drop_last()) + if is_ace(hand.last()) { 1int } else { 0int }
    }
}

/// Lowers up to `aces` high aces (ten points each), one at a time, while
/// the total is over 21.
pub open spec fn soften(points: int, aces: int) -> int
    decreases aces,
{
    if aces <= 0 || points <= 21 {
        points
    } else {
        soften(points - 10, aces - 1)
    }
}

/// The blackjack total of a hand.
pub open spec fn hand_value(hand: Seq<Seq<char>>) -> int {
    soften(hand_points(hand), ace_count(hand))
}

/// A hand whose total `hand_total` can count: its aces fit the counter
/// and its points fit an `i32`.
pub open spec fn hand_fits(hand: Seq<Seq<char>>) -> bool {
    ace_count(hand) <= 127 && hand_points(hand) <= i32::MAX
}

/// How many aces `soften` lowers.
pub open spec fn aces_lowered(points: int, aces: int) -> int
    decreases aces,
{
    if aces <= 0 || points <= 21 {
        0
    } else {
        1 + aces_lowered(points - 10, aces - 1)
    }
}

pub proof fn lemma_card_score_range(name: Seq<char>)
    ensures
        0 <= card_score(name) <= 11,
{
}

proof fn lemma_prefix_bounds(hand: Seq<Seq<char>>, i: int)
    requires
        0 <= i <= hand.len(),
    ensures
        0 <= hand_points(hand.take(i)) <= hand_points(hand),
        0 <= ace_count(hand.take(i)) <= ace_count(hand),
    decreases hand.len(),
{
    if i == hand.len() {
        assert(hand.take(i) =~= hand);
        lemma_bounds(hand);
    } else {
        lemma_prefix_bounds(hand.drop_last(), i);
        assert(hand.drop_last().take(i) =~= hand.take(i));
        lemma_card_score_range(hand.last());
    }
}

proof fn lemma_bounds(hand: Seq<Seq<char>>)
    ensures
        0 <= hand_points(hand) <= 11 * hand.len(),
        0 <= ace_count(hand) <= hand.len(),
    decreases hand.len(),
{
    if hand.len() > 0 {
        lemma_bounds(hand.drop_last());
        lemma_card_score_range(hand.last());
    }
}

/// Points, aces and total of a hand are never negative.
pub proof fn lemma_hand_nonneg(hand: Seq<Seq<char>>)
    ensures
        0 <= hand_points(hand),
        0 <= ace_count(hand),
        0 <= hand_value(hand),
{
    lemma_bounds(hand);
    lemma_soften_shape(hand_points(hand), ace_count(hand));
}

/// The names of a hand grow by the name of the card added to it.
pub proof fn lemma_names_push(hand: Seq<String>, card: String)
    ensures
        names(hand.push(card)) == names(hand).push(card@),
{
    assert(names(hand.push(card)) =~= names(hand).push(card@));
}

/// A hand of at most 127 cards can always be counted.
pub proof fn lemma_small_hand_fits(hand: Seq<Seq<char>>)
    requires
        hand.len() <= 127,
    ensures
        hand_fits(hand),
        0 <= hand_points(hand) <= 11 * hand.len(),
        0 <= ace_count(hand) <= hand.len(),
        0 <= hand_value(hand) <= 11 * hand.len(),
{
    lemma_bounds(hand);
    lemma_soften_shape(hand_points(hand), ace_count(hand));
}

/// The rule for aces: lowering them takes ten points per lowered ace, never
/// lowers more aces than the hand holds, lowers every ace of a hand that
/// still counts over 21, and never brings a hand down to 11 or less.
pub proof fn lemma_soften_shape(points: int, aces: int)
    ensures
        soften(points, aces) == points - 10 * aces_lowered(points, aces),
        0 <= aces_lowered(points, aces),
        aces_lowered(points, aces) <= if aces < 0 { 0 } else { aces },
        soften(points, aces) > 21 && aces >= 0 ==> aces_lowered(points, aces) == aces,
        aces_lowered(points, aces) > 0 ==> soften(points, aces) >= 12,
        soften(points, aces) <= points,
        points >= 0 ==> soften(points, aces) >= 0,
    decreases aces,
{
    if aces > 0 && points > 21 {
        lemma_soften_shape(points - 10, aces - 1);
    }
}

/// A hand's points and aces are the sums over its two parts.
pub proof fn lemma_concat(a: Seq<Seq<char>>, b: Seq<Seq<char>>)
    ensures
        hand_points(a + b) == hand_points(a) + hand_points(b),
        ace_count(a + b) == ace_count(a) + ace_count(b),
    decreases b.len(),
{
    if b.len() == 0 {
        assert(a + b =~= a);
    } else {
        lemma_concat(a, b.drop_last());
        assert((a + b).drop_last() =~= a + b.drop_last());
        assert((a + b).last() == b.last());
    }
}

/// Taking the card at place `j` out of a hand takes its score off the points.
proof fn lemma_remove(hand: Seq<Seq<char>>, j: int)
    requires
        0 <= j < hand.len(),
    ensures
        hand_points(hand) == hand_points(hand.remove(j)) + card_score(hand[j]),
        ace_count(hand) == ace_count(hand.remove(j)) + if is_ace(hand[j]) { 1int } else { 0int },
{
    let front = hand.subrange(0, j);
    let back = hand.subrange(j + 1, hand.len() as int);
    assert(hand =~= front.push(hand[j]) + back);
    lemma_concat(front.push(hand[j]), back);
    lemma_concat(front, back);
    lemma_push(front, hand[j]);
}

/// The total of a hand depends only on which cards it holds, not on their
/// order: two hands with the same cards have the same points, aces and
/// total.
pub proof fn lemma_total_any_order(a: Seq<Seq<char>>, b: Seq<Seq<char>>)
    requires
        a.to_multiset() == b.to_multiset(),
    ensures
        hand_points(a) == hand_points(b),
        ace_count(a) == ace_count(b),
        hand_value(a) == hand_value(b),
    decreases a.len(),
{
    broadcast use vstd::seq_lib::group_to_multiset_ensures;
    if a.len() == 0 {
        assert(a.to_multiset().len() == 0);
        assert(b.to_multiset().len() == b.len());
        assert(b.len() == 0);
        assert(a =~= b);
    } else {
        let x = a.last();
        let rest = a.drop_last();
        assert(a =~= rest.push(x));
        assert(a.to_multiset().count(x) > 0);
        assert(b.contains(x));
        let j = choose|j: int| 0 <= j < b.len() && b[j] == x;
        assert(rest.to_multiset() =~= b.remove(j).to_multiset());
        lemma_total_any_order(rest, b.remove(j));
        lemma_remove(b, j);
        lemma_push(rest, x);
    }
}

/// A card of unknown name changes nothing of a hand's total.
pub proof fn lemma_unknown_card_skipped(hand: Seq<Seq<char>>, card: Seq<char>)
    requires
        card_points(card) is None,
        !is_ace(card),
    ensures
        hand_value(hand.push(card)) == hand_value(hand),
        hand_fits(hand.push(card)) == hand_fits(hand),
{
    lemma_push(hand, card);
}

/// Adding a card adds its score to the hand's points.
pub proof fn lemma_push(hand: Seq<Seq<char>>, card: Seq<char>)
    ensures
        hand_points(hand.push(card)) == hand_points(hand) + card_score(card),
        ace_count(hand.push(card)) == ace_count(hand) + if is_ace(card) { 1int } else { 0int },
{
    assert(hand.push(card).drop_last() =~= hand);
}

proof fn lemma_high_ace_value(converter: StringToInt)
    requires
        converter.is_standard(),
    ensures
        converter.value_of("ace_high"@) == Some(11i32),
{
    reveal_strlit("ace_high");
    reveal_strlit("ace_low");
    reveal_strlit("2");
    reveal_strlit("3");
    reveal_strlit("4");
    reveal_strlit("5");
    reveal_strlit("6");
    reveal_strlit("7");
    reveal_strlit("8");
    reveal_strlit("9");
    reveal_strlit("10");
    reveal_strlit("jack");
    reveal_strlit("queen");
    reveal_strlit("king");
    assert("ace_high"@.len() == 8);
    assert("ace_high"@ != "ace_low"@);
    assert("ace_high"@ != "2"@);
    assert("ace_high"@ != "3"@);
    assert("ace_high"@ != "4"@);
    assert("ace_high"@ != "5"@);
    assert("ace_high"@ != "6"@);
    assert("ace_high"@ != "7"@);
    assert("ace_high"@ != "8"@);
    assert("ace_high"@ != "9"@);
    assert("ace_high"@ != "10"@);
    assert("ace_high"@ != "jack"@);
    assert("ace_high"@ != "queen"@);
    assert("ace_high"@ != "king"@);
}

/// The total of a hand of cards named as the assistant names them
/// ("2" to "10", "jack", "queen", "king", "ace"); aces count eleven
/// unless that makes the hand bust, then one. An unknown name adds
/// nothing.
pub fn hand_total(input: Vec<String>) -> (total: i32)
    requires
        hand_fits(names(input@)),
    ensures
        total == hand_value(names(input@)),
{
    let ghost hand = names(input@);
    let mut hand_value: i32 = 0;
    let mut number_of_aces: i8 = 0;
    let converter = StringToInt::new();
    let ace = String::from_str("ace");
    let mut i: usize = 0;
    while i < input.len()
        invariant
            0 <= i <= input.len(),
            hand == names(input@),
            hand.len() == input.len(),
            hand_fits(hand),
            converter.is_standard(),
            ace@ == "ace"@,
            hand_value == hand_points(hand.take(i as int)),
            number_of_aces == ace_count(hand.take(i as int)),
        decreases input.len() - i,
    {
        proof {
            lemma_prefix_bounds(hand, i + 1);
            assert(hand.take(i + 1) =~= hand.take(i as int).push(hand[i as int]));
            lemma_push(hand.take(i as int), hand[i as int]);
        }
        let high = input[i] == ace;
        assert(hand[i as int] == input@[i as int]@);
        let name = if high {
            number_of_aces = number_of_aces + 1;
            String::from_str("ace_high")
        } else {
            input[i].clone()
        };
        proof {
            if high {
                lemma_high_ace_value(converter);
            }
        }
        match converter.get_value(name.as_str()) {
            Some(value) => {
                hand_value = hand_value + value;
            },
            None => {},
        }
        i = i + 1;
    }
    proof {
        assert(hand.take(input.len() as int) =~= hand);
        lemma_bounds(hand);
    }
    let mut remaining: i8 = number_of_aces;
    while remaining > 0
        invariant_except_break
            soften(hand_value as int, remaining as int) == soften(
                hand_points(hand),
                ace_count(hand),
            ),
            remaining >= 0,
        ensures
            hand_value == soften(hand_points(hand), ace_count(hand)),
        decreases remaining,
    {
        if hand_value > 21 {
            hand_value = hand_value - 10;
            remaining = remaining - 1;
        } else {
            break;
        }
    }
    hand_value
}

/// A hand that can take `extra` more cards and still be counted.
pub open spec fn hand_room(hand: Seq<Seq<char>>, extra: int) -> bool {
    ace_count(hand) <= 127 - extra && hand_points(hand) <= i32::MAX - 11 * extra
}

/// The points a card adds before any ace is lowered.
pub fn card_score_of(name: &String) -> (score: i64)
    ensures
        score == card_score(name@),
{
    if *name == String::from_str("ace") {
        11
    } else {
        let converter = StringToInt::new();
        match converter.get_value(name.as_str()) {
            Some(v) => v as i64,
            None => 0,
        }
    }
}

/// Whether the hand can take `extra` more cards and still be counted
/// (with `extra` zero: whether `hand_total` can count it).
pub fn hand_has_room(hand: &Vec<String>, extra: i64) -> (room: bool)
    requires
        0 <= extra <= 100,
    ensures
        room == hand_room(names(hand@), extra as int),
{
    let ghost h = names(hand@);
    let mut points: i64 = 0;
    let mut aces: i64 = 0;
    let mut i: usize = 0;
    while i < hand.len()
        invariant
            0 <= i <= hand.len(),
            0 <= extra <= 100,
            h == names(hand@),
            h.len() == hand.len(),
            points == hand_points(h.take(i as int)),
            aces == ace_count(h.take(i as int)),
            aces <= 127 - extra,
            points <= i32::MAX - 11 * extra,
        decreases hand.len() - i,
    {
        proof {
            assert(h.take(i + 1) =~= h.take(i as int).push(h[i as int]));
            lemma_push(h.take(i as int), h[i as int]);
            lemma_card_score_range(h[i as int]);
            lemma_prefix_bounds(h, i + 1);
        }
        assert(h[i as int] == hand@[i as int]@);
        points = points + card_score_of(&hand[i]);
        if hand[i] == String::from_str("ace") {
            aces = aces + 1;
        }
        if aces > 127 - extra || points > i32::MAX as i64 - 11 * extra {
            return false;
        }
        i = i + 1;
    }
    proof {
        assert(h.take(hand.len() as int) =~= h);
    }
    true
}

} // verus!
