//! Exact chances for the player's next card, as fractions of the cards
//! that remain in the deck.

use vstd::prelude::*;
use crate::dealer::{counts_nonneg, lemma_total_nonneg, lemma_total_take, lemma_prefix_nonneg};

verus! {

/// An exact chance `numerator / denominator`.
#[derive(Clone, Copy, Debug, PartialEq, Eq, Structural)]
pub struct Fraction {
    pub numerator: i128,
    pub denominator: i128,
}

/// The chance zero, as the assistant reports it for an empty deck.
pub open spec fn zero_chance() -> Fraction {
    Fraction { numerator: 0, denominator: 1 }
}

/// The number of cards left: the sum of the counts.
pub open spec fn seq_total(counts: Seq<i32>) -> int
    decreases counts.len(),
{
    if counts.len() == 0 {
        0
    } else {
        seq_total(counts.drop_last()) + counts.last()
    }
}

pub open spec fn fits_i32(x: int) -> bool {
    i32::MIN <= x <= i32::MAX
}

/// Summing the counts from the first one on never leaves the `i32` range.
pub open spec fn prefix_sums_fit(counts: Seq<i32>) -> bool {
    forall|k: int| 0 <= k <= counts.len() ==> #[trigger] fits_i32(seq_total(counts.take(k)))
}

/// The sum of the counts, as the deck's number of cards.
pub fn total_of(counts: &Vec<i32>) -> (total: i32)
    requires
        prefix_sums_fit(counts@),
    ensures
        total == seq_total(counts@),
{
    let mut total: i32 = 0;
    let mut i: usize = 0;
    while i < counts.len()
        invariant
            0 <= i <= counts.len(),
            prefix_sums_fit(counts@),
            total == seq_total(counts@.take(i as int)),
        decreases counts.len() - i,
    {
        proof {
            assert(counts@.take(i + 1).drop_last() =~= counts@.take(i as int));
            assert(fits_i32(seq_total(counts@.take(i + 1))));
        }
        total = total + counts[i];
        i = i + 1;
    }
    proof {
        assert(counts@.take(counts.len() as int) =~= counts@);
    }
    total
}

/// The value of the card at index `i` of the thirteen-rank deck used for
/// the bust chance: 2 to 10, three faces at 10, and the ace at 11.
pub open spec fn bust_table_value(i: int) -> int {
    if 0 <= i <= 8 {
        i + 2
    } else if 9 <= i <= 11 {
        10
    } else {
        11
    }
}

/// A card of value `value` busts a hand of `hand` points; an ace that would
/// bust as eleven is counted as one.
pub open spec fn busts(hand: int, value: int) -> bool {
    let drawn = if value == 11 && hand + 11 > 21 { 1 } else { value };
    hand + drawn > 21
}

/// How many of the first `k` counted cards bust the hand.
pub open spec fn bust_count(hand: int, counts: Seq<i32>, k: int) -> int
    decreases k,
{
    if k <= 0 {
        0
    } else {
        bust_count(hand, counts, k - 1) + if busts(hand, bust_table_value(k - 1)) {
            counts[k - 1] as int
        } else {
            0int
        }
    }
}

pub open spec fn min_int(a: int, b: int) -> int {
    if a <= b {
        a
    } else {
        b
    }
}

/// The inputs on which `probability_busting` adds without leaving the
/// `i32` range: the counts sum, and the hand takes every card that is left.
pub open spec fn bust_defined(hand: int, counts: Seq<i32>) -> bool {
    &&& prefix_sums_fit(counts)
    &&& seq_total(counts) != 0 ==> forall|i: int|
        0 <= i < min_int(13, counts.len() as int) && #[trigger] counts[i] != 0 ==> hand
            + bust_table_value(i) <= i32::MAX
}

/// Whether `probability_busting` can answer for these inputs.
pub fn bust_in_range(curr_hand: i32, card_counts: &Vec<i32>) -> (ok: bool)
    requires
        prefix_sums_fit(card_counts@),
    ensures
        ok == bust_defined(curr_hand as int, card_counts@),
{
    if total_of(card_counts) == 0 {
        return true;
    }
    let card_vals: Vec<i32> = vec![2, 3, 4, 5, 6, 7, 8, 9, 10, 10, 10, 10, 11];
    let end: usize = if card_counts.len() < 13 {
        card_counts.len()
    } else {
        13
    };
    let mut i: usize = 0;
    while i < end
        invariant
            0 <= i <= end,
            end == min_int(13, card_counts@.len() as int),
            card_vals@ == seq![2i32, 3, 4, 5, 6, 7, 8, 9, 10, 10, 10, 10, 11],
            forall|j: int|
                0 <= j < i && #[trigger] card_counts@[j] != 0 ==> curr_hand + bust_table_value(j)
                    <= i32::MAX,
            seq_total(card_counts@) != 0,
            prefix_sums_fit(card_counts@),
        decreases end - i,
    {
        assert(card_vals@[i as int] == bust_table_value(i as int));
        if card_counts[i] != 0 && curr_hand as i64 + card_vals[i] as i64 > i32::MAX as i64 {
            assert(card_counts@[i as int] != 0);
            return false;
        }
        i = i + 1;
    }
    true
}

/// The chance that the next card busts a hand of `curr_hand` points, with
/// `card_counts[i]` cards left of the `i`-th rank (2, 3, ..., 10, jack,
/// queen, king, ace). An empty deck gives zero.
pub fn probability_busting(curr_hand: i32, card_counts: &Vec<i32>) -> (chance: Fraction)
    requires
        bust_defined(curr_hand as int, card_counts@),
    ensures
        seq_total(card_counts@) == 0 ==> chance == zero_chance(),
        seq_total(card_counts@) != 0 ==> chance.denominator == seq_total(card_counts@)
            && chance.numerator == bust_count(
            curr_hand as int,
            card_counts@,
            min_int(13, card_counts@.len() as int),
        ),
{
    let card_vals: Vec<i32> = vec![2, 3, 4, 5, 6, 7, 8, 9, 10, 10, 10, 10, 11];
    let total_remaining = total_of(card_counts);
    if total_remaining == 0 {
        return Fraction { numerator: 0, denominator: 1 };
    }
    let end: usize = if card_counts.len() < 13 {
        card_counts.len()
    } else {
        13
    };
    let mut busting: i128 = 0;
    let mut i: usize = 0;
    while i < end
        invariant
            0 <= i <= end,
            end == min_int(13, card_counts@.len() as int),
            bust_defined(curr_hand as int, card_counts@),
            seq_total(card_counts@) != 0,
            card_vals@ == seq![2i32, 3, 4, 5, 6, 7, 8, 9, 10, 10, 10, 10, 11],
            busting == bust_count(curr_hand as int, card_counts@, i as int),
            -0x8000_0000 * i <= busting <= 0x8000_0000 * i,
        decreases end - i,
    {
        let val = card_vals[i];
        let count = card_counts[i];
        assert(val == bust_table_value(i as int));
        if count != 0 {
            let draw = if val == 11 && curr_hand + 11 > 21 {
                1
            } else {
                val
            };
            if curr_hand + draw > 21 {
                busting = busting + count as i128;
            }
        }
        i = i + 1;
    }
    Fraction { numerator: busting, denominator: total_remaining as i128 }
}

/// How many of the remaining cards are worth exactly `needed` points, in
/// the thirteen-rank deck (2, 3, ..., 10, jack, queen, king, ace): an ace
/// (index 12) is worth 1 or 11, ranks 2 to 9 sit at index `needed - 2`,
/// and 10, jack, queen and king (indices 8 to 11) are worth 10.
pub open spec fn blackjack_count(counts: Seq<i32>, needed: int) -> int {
    if needed == 1 || needed == 11 {
        counts[12] as int
    } else if 2 <= needed <= 9 {
        counts[needed - 2] as int
    } else if needed == 10 {
        counts[8] + counts[9] + counts[10] + counts[11]
    } else {
        0
    }
}

/// The inputs on which `probability_next_blackjack` reads only counts that
/// exist and adds without leaving the `i32` range.
pub open spec fn next_blackjack_defined(player_total: int, counts: Seq<i32>) -> bool {
    &&& prefix_sums_fit(counts)
    &&& (seq_total(counts) != 0 && player_total < 21) ==> {
        let needed = 21 - player_total;
        &&& needed <= i32::MAX
        &&& (needed == 1 || needed == 11 ==> counts.len() >= 13)
        &&& (2 <= needed <= 9 ==> counts.len() >= needed - 1)
        &&& (needed == 10 ==> counts.len() >= 12 && fits_i32(counts[8] + counts[9]) && fits_i32(
            counts[8] + counts[9] + counts[10],
        ) && fits_i32(counts[8] + counts[9] + counts[10] + counts[11]))
    }
}

/// The chance that the next card brings a hand of `player_total` points to
/// exactly 21: the remaining cards worth the missing points, out of all
/// remaining cards, with `cards_remaining[i]` cards left of the `i`-th rank
/// (2, 3, ..., 10, jack, queen, king, ace). Zero for an empty deck or a
/// hand of 21 or more.
pub fn probability_next_blackjack(player_total: i32, cards_remaining: &Vec<i32>) -> (chance:
    Fraction)
    requires
        next_blackjack_defined(player_total as int, cards_remaining@),
    ensures
        seq_total(cards_remaining@) == 0 || player_total >= 21 ==> chance == zero_chance(),
        seq_total(cards_remaining@) != 0 && player_total < 21 ==> chance.denominator == seq_total(
            cards_remaining@,
        ) && chance.numerator == blackjack_count(cards_remaining@, 21 - player_total),
{
    let total_cards = total_of(cards_remaining);
    if total_cards == 0 || player_total >= 21 {
        return Fraction { numerator: 0, denominator: 1 };
    }
    let needed = 21 - player_total;
    let count: i32 = if needed == 1 || needed == 11 {
        cards_remaining[12]
    } else if 2 <= needed && needed <= 9 {
        cards_remaining[(needed - 2) as usize]
    } else if needed == 10 {
        cards_remaining[8] + cards_remaining[9] + cards_remaining[10] + cards_remaining[11]
    } else {
        0
    };
    Fraction { numerator: count as i128, denominator: total_cards as i128 }
}

/// Whether `probability_next_blackjack` can answer for these inputs.
pub fn next_blackjack_in_range(player_total: i32, cards_remaining: &Vec<i32>) -> (ok: bool)
    requires
        prefix_sums_fit(cards_remaining@),
    ensures
        ok == next_blackjack_defined(player_total as int, cards_remaining@),
{
    let total_cards = total_of(cards_remaining);
    if total_cards == 0 || player_total >= 21 {
        return true;
    }
    if player_total < i32::MIN + 22 {
        return false;
    }
    let needed = 21 - player_total;
    let len = cards_remaining.len();
    if needed == 1 || needed == 11 {
        len >= 13
    } else if 2 <= needed && needed <= 9 {
        len >= (needed - 1) as usize
    } else if needed == 10 {
        if len < 12 {
            return false;
        }
        let a = cards_remaining[8] as i64 + cards_remaining[9] as i64;
        let b = a + cards_remaining[10] as i64;
        let c = b + cards_remaining[11] as i64;
        i32::MIN as i64 <= a && a <= i32::MAX as i64 && i32::MIN as i64 <= b && b
            <= i32::MAX as i64 && i32::MIN as i64 <= c && c <= i32::MAX as i64
    } else {
        true
    }
}

/// The chance of busting is a chance: with no negative count, between
/// zero and all the remaining cards bust.
pub proof fn lemma_bust_chance_bounded(hand: int, counts: Seq<i32>, k: int)
    requires
        counts_nonneg(counts),
        0 <= k <= min_int(13, counts.len() as int),
    ensures
        0 <= bust_count(hand, counts, k) <= seq_total(counts.take(k)),
        seq_total(counts.take(k)) <= seq_total(counts),
    decreases k,
{
    lemma_total_nonneg(counts, k);
    if k > 0 {
        lemma_bust_chance_bounded(hand, counts, k - 1);
        lemma_total_take(counts, k - 1);
    } else {
        assert(counts.take(0) =~= Seq::<i32>::empty());
    }
}

/// The chance of reaching 21 with the next card is a chance: with no
/// negative count, between zero and all the remaining cards.
pub proof fn lemma_next_blackjack_bounded(counts: Seq<i32>, needed: int)
    requires
        counts_nonneg(counts),
        needed == 1 || needed == 11 ==> counts.len() >= 13,
        2 <= needed <= 9 ==> counts.len() >= needed - 1,
        needed == 10 ==> counts.len() >= 12,
    ensures
        0 <= blackjack_count(counts, needed) <= seq_total(counts),
{
    if needed == 1 || (2 <= needed <= 9) || needed == 11 {
        let i = if needed == 1 || needed == 11 {
            12
        } else {
            needed - 2
        };
        lemma_total_nonneg(counts, i + 1);
        lemma_prefix_nonneg(counts, i);
        lemma_total_take(counts, i);
        assert(0 <= counts[i]);
        assert(blackjack_count(counts, needed) == counts[i]);
    } else if needed == 10 {
        lemma_total_nonneg(counts, 12);
        lemma_prefix_nonneg(counts, 8);
        lemma_total_take(counts, 8);
        lemma_total_take(counts, 9);
        lemma_total_take(counts, 10);
        lemma_total_take(counts, 11);
        assert(0 <= counts[8] && 0 <= counts[9] && 0 <= counts[10] && 0 <= counts[11]);
    } else {
        crate::dealer::lemma_total_nonneg_all(counts);
    }
}

/// A larger hand busts at least as often: with no negative count, the
/// chance of busting grows with the hand.
pub proof fn lemma_bust_monotone(low: int, high: int, counts: Seq<i32>, k: int)
    requires
        counts_nonneg(counts),
        low <= high,
        0 <= k <= min_int(13, counts.len() as int),
    ensures
        bust_count(low, counts, k) <= bust_count(high, counts, k),
    decreases k,
{
    if k > 0 {
        lemma_bust_monotone(low, high, counts, k - 1);
        let v = bust_table_value(k - 1);
        assert(busts(low, v) ==> busts(high, v));
        assert(0 <= counts[k - 1]);
    }
}

/// No single card busts a hand of 11 or less.
pub proof fn lemma_no_bust_low(hand: int, counts: Seq<i32>, k: int)
    requires
        hand <= 11,
        0 <= k,
    ensures
        bust_count(hand, counts, k) == 0,
    decreases k,
{
    if k > 0 {
        lemma_no_bust_low(hand, counts, k - 1);
        assert(!busts(hand, bust_table_value(k - 1)));
    }
}

} // verus!
