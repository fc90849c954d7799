//! Drawing a random card that has not been dealt yet, and counting the
//! cards that are still free.

use vstd::prelude::*;
use rand::Rng;

verus! {

broadcast use vstd::seq_lib::lemma_seq_contains_after_push;

/// The name of rank `i` of the deck (2, 3, ..., 10, jack, queen, king, ace),
/// as a hand records it.
pub open spec fn rank_name(i: int) -> Seq<char> {
    if i == 0 {
        "2"@
    } else if i == 1 {
        "3"@
    } else if i == 2 {
        "4"@
    } else if i == 3 {
        "5"@
    } else if i == 4 {
        "6"@
    } else if i == 5 {
        "7"@
    } else if i == 6 {
        "8"@
    } else if i == 7 {
        "9"@
    } else if i == 8 {
        "10"@
    } else if i == 9 {
        "jack"@
    } else if i == 10 {
        "queen"@
    } else if i == 11 {
        "king"@
    } else {
        "ace"@
    }
}

/// The name of suit `i` (hearts, spades, diamonds, clubs) in a card id.
pub open spec fn suit_name(i: int) -> Seq<char> {
    if i == 0 {
        "hearts"@
    } else if i == 1 {
        "spades"@
    } else if i == 2 {
        "diamonds"@
    } else {
        "clubs"@
    }
}

/// The id of a card, the name of its picture: `<value>_of_<suit>`.
pub open spec fn card_id_text(value: Seq<char>, suit: Seq<char>) -> Seq<char> {
    value + "_of_"@ + suit
}

/// The value recorded for a draw from a deck with no free card.
pub open spec fn no_card_value() -> Seq<char> {
    "-1"@
}

/// The id recorded for a draw from a deck with no free card.
pub open spec fn no_card_id() -> Seq<char> {
    card_id_text("-1"@, "None"@)
}

/// The name of rank `i`.
pub fn rank_name_string(i: i32) -> (name: String)
    requires
        0 <= i < 13,
    ensures
        name@ == rank_name(i as int),
{
    let text = if i == 0 {
        "2"
    } else if i == 1 {
        "3"
    } else if i == 2 {
        "4"
    } else if i == 3 {
        "5"
    } else if i == 4 {
        "6"
    } else if i == 5 {
        "7"
    } else if i == 6 {
        "8"
    } else if i == 7 {
        "9"
    } else if i == 8 {
        "10"
    } else if i == 9 {
        "jack"
    } else if i == 10 {
        "queen"
    } else if i == 11 {
        "king"
    } else {
        "ace"
    };
    String::from_str(text)
}

/// The name of suit `i`.
pub fn suit_name_string(i: i32) -> (name: String)
    requires
        0 <= i < 4,
    ensures
        name@ == suit_name(i as int),
{
    let text = if i == 0 {
        "hearts"
    } else if i == 1 {
        "spades"
    } else if i == 2 {
        "diamonds"
    } else {
        "clubs"
    };
    String::from_str(text)
}

/// The id `<value>_of_<suit>` of a card.
pub fn card_id(value: &String, suit: &str) -> (id: String)
    ensures
        id@ == card_id_text(value@, suit@),
{
    let mut id = value.clone();
    id.append("_of_");
    id.append(suit);
    id
}

/// rand's `Rng::gen_range(0..upper)` on the thread's generator: some
/// number from 0 up to `upper`, which one is left to chance. `gen_range`
/// panics on an empty range, so `upper` must be positive.
#[verifier::external_body]
fn random_below(upper: i32) -> (r: i32)
    requires
        0 < upper,
    ensures
        0 <= r < upper,
{
    rand::thread_rng().gen_range(0..upper)
}

/// Whether the card of suit `suit` and rank `rank` is in `dealt`.
pub fn pair_dealt(dealt: &Vec<(i32, i32)>, suit: i32, rank: i32) -> (found: bool)
    ensures
        found == dealt@.contains((suit, rank)),
{
    let mut i: usize = 0;
    while i < dealt.len()
        invariant
            0 <= i <= dealt.len(),
            forall|j: int| 0 <= j < i ==> #[trigger] dealt@[j] != (suit, rank),
        decreases dealt.len() - i,
    {
        let (s, r) = dealt[i];
        if s == suit && r == rank {
            assert(dealt@[i as int] == (suit, rank));
            return true;
        }
        i = i + 1;
    }
    false
}

/// Every one of the 52 cards is in `dealt`.
pub open spec fn all_dealt(dealt: Seq<(i32, i32)>) -> bool {
    forall|s: i32, r: i32| 0 <= s < 4 && 0 <= r < 13 ==> #[trigger] dealt.contains((s, r))
}

/// The position of a card in the order of the deck: suits first, then ranks.
pub open spec fn deck_order(card: (i32, i32)) -> int {
    card.0 * 13 + card.1
}

/// The turn for the card `(suit, rank)`: its id, its value, its indices.
fn turn_for(suit: i32, rank: i32) -> (turn: (String, String, i32, i32, bool))
    requires
        0 <= suit < 4,
        0 <= rank < 13,
    ensures
        turn.1@ == rank_name(rank as int),
        turn.0@ == card_id_text(rank_name(rank as int), suit_name(suit as int)),
        turn.2 == suit,
        turn.3 == rank,
        !turn.4,
{
    let card_value = rank_name_string(rank);
    let suit_text = suit_name_string(suit);
    let card_id = card_id(&card_value, suit_text.as_str());
    (card_id, card_value, suit, rank, false)
}

/// The card a turn takes, given the random picks it made: the first pick
/// that is not in `forbidden` (the dealt cards); if every pick was dealt
/// already, the first undealt card in the order of the deck; if no card is
/// left, the deck is out of cards ("-1", "-1_of_None").
pub fn turn_from_picks(forbidden: &Vec<(i32, i32)>, picks: &Vec<(i32, i32)>) -> (turn: (
    String,
    String,
    i32,
    i32,
    bool,
))
    requires
        forall|k: int| 0 <= k < picks@.len() ==> 0 <= (#[trigger] picks@[k]).0 < 4 && 0 <= picks@[k].1 < 13,
    ensures
        0 <= turn.2 < 4,
        0 <= turn.3 < 13,
        turn.4 == all_dealt(forbidden@),
        turn.4 ==> turn.1@ == no_card_value() && turn.0@ == no_card_id(),
        !turn.4 ==> !forbidden@.contains((turn.2, turn.3)) && turn.1@ == rank_name(turn.3 as int)
            && turn.0@ == card_id_text(rank_name(turn.3 as int), suit_name(turn.2 as int)),
        (exists|k: int| 0 <= k < picks@.len() && !forbidden@.contains(#[trigger] picks@[k])) ==> exists|k: int|
            0 <= k < picks@.len() && picks@[k] == (turn.2, turn.3) && forall|j: int|
                0 <= j < k ==> forbidden@.contains(#[trigger] picks@[j]),
        picks@.len() > 0 && !forbidden@.contains(picks@[0]) ==> (turn.2, turn.3) == picks@[0],
        (forall|k: int| 0 <= k < picks@.len() ==> forbidden@.contains(#[trigger] picks@[k])) && !turn.4
            ==> forall|s: i32, r: i32|
            0 <= s < 4 && 0 <= r < 13 && deck_order((s, r)) < deck_order((turn.2, turn.3))
                ==> #[trigger] forbidden@.contains((s, r)),
{
    let mut k: usize = 0;
    while k < picks.len()
        invariant
            0 <= k <= picks.len(),
            forall|j: int| 0 <= j < k ==> forbidden@.contains(#[trigger] picks@[j]),
            forall|j: int| 0 <= j < picks@.len() ==> 0 <= (#[trigger] picks@[j]).0 < 4 && 0 <= picks@[j].1 < 13,
        decreases picks.len() - k,
    {
        let (suit, rank) = picks[k];
        if !pair_dealt(forbidden, suit, rank) {
            assert(0 <= picks@[k as int].0 < 4 && 0 <= picks@[k as int].1 < 13);
            proof {
                assert(picks@[k as int] == (suit, rank));
                assert(!all_dealt(forbidden@)) by {
                    assert(!forbidden@.contains((suit, rank)));
                }
            }
            return turn_for(suit, rank);
        }
        k = k + 1;
    }
    let mut suit: i32 = 0;
    while suit < 4
        invariant
            0 <= suit <= 4,
            forall|j: int| 0 <= j < picks@.len() ==> forbidden@.contains(#[trigger] picks@[j]),
            forall|s: i32, r: i32|
                0 <= s < suit && 0 <= r < 13 ==> #[trigger] forbidden@.contains((s, r)),
        decreases 4 - suit,
    {
        let mut rank: i32 = 0;
        while rank < 13
            invariant
                0 <= suit < 4,
                0 <= rank <= 13,
                forall|j: int| 0 <= j < picks@.len() ==> forbidden@.contains(#[trigger] picks@[j]),
                forall|s: i32, r: i32|
                    0 <= s < suit && 0 <= r < 13 ==> #[trigger] forbidden@.contains((s, r)),
                forall|r: i32| 0 <= r < rank ==> #[trigger] forbidden@.contains((suit, r)),
            decreases 13 - rank,
        {
            if !pair_dealt(forbidden, suit, rank) {
                proof {
                    assert(!all_dealt(forbidden@)) by {
                        assert(!forbidden@.contains((suit, rank)));
                    }
                    assert forall|s: i32, r: i32|
                        0 <= s < 4 && 0 <= r < 13 && deck_order((s, r)) < deck_order((suit, rank))
                            implies #[trigger] forbidden@.contains((s, r)) by {
                        if s == suit {
                            assert(r < rank);
                        } else {
                            assert(s < suit);
                        }
                    }
                }
                return turn_for(suit, rank);
            }
            rank = rank + 1;
        }
        suit = suit + 1;
    }
    let card_value = String::from_str("-1");
    let card_id = card_id(&card_value, "None");
    (card_id, card_value, 0, 0, true)
}

/// Takes a card that has not been dealt: picks a random card (suit index,
/// rank index) and, while the pick is in `forbidden_cards_sim`, picks again,
/// 53 picks at most; if all of them were dealt, takes the first undealt card
/// of the deck. Returns the card's id, its recorded value, its suit and
/// rank, and whether the deck is out of cards (every card dealt); then the
/// id and value are "-1_of_None" and "-1".
pub fn player_turn(forbidden_cards_sim: Vec<(i32, i32)>) -> (turn: (String, String, i32, i32, bool))
    ensures
        0 <= turn.2 < 4,
        0 <= turn.3 < 13,
        turn.4 == all_dealt(forbidden_cards_sim@),
        turn.4 ==> turn.1@ == no_card_value() && turn.0@ == no_card_id(),
        !turn.4 ==> !forbidden_cards_sim@.contains((turn.2, turn.3)) && turn.1@ == rank_name(
            turn.3 as int,
        ) && turn.0@ == card_id_text(rank_name(turn.3 as int), suit_name(turn.2 as int)),
{
    let mut picks: Vec<(i32, i32)> = Vec::new();
    while picks.len() < 53
        invariant
            picks@.len() <= 53,
            forall|k: int| 0 <= k < picks@.len() ==> 0 <= (#[trigger] picks@[k]).0 < 4 && 0 <= picks@[k].1 < 13,
        decreases 53 - picks@.len(),
    {
        let rand_card_index = random_below(13);
        let rand_suit_index = random_below(4);
        picks.push((rand_suit_index, rand_card_index));
    }
    turn_from_picks(&forbidden_cards_sim, &picks)
}

/// 1 when the card of suit `s` and rank `r` has not been dealt, else 0.
pub open spec fn suit_free(dealt: Seq<(i32, i32)>, s: int, r: int) -> int {
    if dealt.contains((s as i32, r as i32)) {
        0
    } else {
        1
    }
}

/// How many cards of rank `r` have not been dealt.
pub open spec fn rank_free(dealt: Seq<(i32, i32)>, r: int) -> int {
    suit_free(dealt, 0, r) + suit_free(dealt, 1, r) + suit_free(dealt, 2, r) + suit_free(
        dealt,
        3,
        r,
    )
}

/// How many cards of the first `k` ranks have not been dealt.
pub open spec fn free_cards(dealt: Seq<(i32, i32)>, k: int) -> int
    decreases k,
{
    if k <= 0 {
        0
    } else {
        free_cards(dealt, k - 1) + rank_free(dealt, k - 1)
    }
}

/// Whether the card is one of the 52 and is not in `dealt`.
pub open spec fn fresh(dealt: Seq<(i32, i32)>, card: (i32, i32)) -> bool {
    0 <= card.0 < 4 && 0 <= card.1 < 13 && !dealt.contains(card)
}

/// A list of dealt cards: each one of the 52, none twice.
pub open spec fn valid_dealt(dealt: Seq<(i32, i32)>) -> bool {
    &&& dealt.no_duplicates()
    &&& forall|k: int| 0 <= k < dealt.len() ==> 0 <= (#[trigger] dealt[k]).0 < 4 && 0 <= dealt[k].1 < 13
}

/// Recording a fresh card keeps a list of dealt cards valid.
pub proof fn lemma_valid_push(dealt: Seq<(i32, i32)>, card: (i32, i32))
    requires
        valid_dealt(dealt),
        fresh(dealt, card),
    ensures
        valid_dealt(dealt.push(card)),
{
    let d2 = dealt.push(card);
    assert forall|i: int, j: int| 0 <= i < d2.len() && 0 <= j < d2.len() && i != j implies d2[i]
        != d2[j] by {
        if i == dealt.len() as int {
            assert(dealt[j] == d2[j]);
        } else if j == dealt.len() as int {
            assert(dealt[i] == d2[i]);
        }
    }
}

/// Recording a card takes it off the free cards of its rank if it was
/// free, and changes nothing else.
pub proof fn lemma_record_card(dealt: Seq<(i32, i32)>, card: (i32, i32), r: int)
    requires
        0 <= r < 13,
    ensures
        rank_free(dealt.push(card), r) == rank_free(dealt, r) - if fresh(dealt, card) && card.1
            == r {
            1int
        } else {
            0int
        },
        0 <= rank_free(dealt, r) <= 4,
{
    let d2 = dealt.push(card);
    assert(d2.contains((0i32, r as i32)) == (card == (0i32, r as i32) || dealt.contains(
        (0i32, r as i32),
    )));
    assert(d2.contains((1i32, r as i32)) == (card == (1i32, r as i32) || dealt.contains(
        (1i32, r as i32),
    )));
    assert(d2.contains((2i32, r as i32)) == (card == (2i32, r as i32) || dealt.contains(
        (2i32, r as i32),
    )));
    assert(d2.contains((3i32, r as i32)) == (card == (3i32, r as i32) || dealt.contains(
        (3i32, r as i32),
    )));
}

/// Recording a fresh card takes one card off the free cards; recording
/// any other changes nothing.
pub proof fn lemma_record_free_cards(dealt: Seq<(i32, i32)>, card: (i32, i32), k: int)
    requires
        0 <= k <= 13,
    ensures
        free_cards(dealt.push(card), k) == free_cards(dealt, k) - if fresh(dealt, card) && card.1
            < k {
            1int
        } else {
            0int
        },
        0 <= free_cards(dealt, k) <= 4 * k,
    decreases k,
{
    if k > 0 {
        lemma_record_free_cards(dealt, card, k - 1);
        lemma_record_card(dealt, card, k - 1);
    }
}

} // verus!
