//! The dealer's chances when the player stands: the dealer draws from the
//! remaining cards while under 17, stands from 17 to 21 and busts over 21.
//!
//! A chance is computed exactly. Along every way the dealer can draw, the
//! chance of drawing card after card from a deck of `n` cards is a product
//! of counts over `n * (n - 1) * ...`; with a draw budget `r` that no way of
//! drawing exceeds, every such product is brought over the common
//! denominator `falling(n, r) = n * (n - 1) * ... * (n - r + 1)`.

use vstd::prelude::*;
use crate::odds::{seq_total, fits_i32, prefix_sums_fit, total_of, zero_chance, Fraction};

verus! {

/// `n * (n - 1) * ... * (n - r + 1)`.
pub open spec fn falling(n: int, r: nat) -> int
    decreases r,
{
    if r == 0 {
        1
    } else {
        n * falling(n - 1, (r - 1) as nat)
    }
}

/// No count is negative.
pub open spec fn counts_nonneg(counts: Seq<i32>) -> bool {
    forall|i: int| 0 <= i < counts.len() ==> 0 <= #[trigger] counts[i]
}

/// Every card that has no value in `vals` is absent from the deck.
pub open spec fn valued(vals: Seq<i32>, counts: Seq<i32>) -> bool {
    forall|i: int| vals.len() <= i < counts.len() ==> #[trigger] counts[i] == 0
}

/// The deck after one card of index `i` was drawn.
pub open spec fn after_draw(counts: Seq<i32>, i: int) -> Seq<i32> {
    counts.update(i, (counts[i] - 1) as i32)
}

/// The dealer's total after drawing a card worth `v` on `dealer` points:
/// an ace (worth 11) counts 1 where 11 would take the total over 21.
pub open spec fn draw_total(dealer: int, v: int) -> int {
    if v == 11 && dealer + 11 > 21 {
        dealer + 1
    } else {
        dealer + v
    }
}

/// The dealer's (win, tie) weights over `falling(total, r)`: the dealer
/// with `dealer` points and `counts[i]` cards of value `vals[i]` left plays
/// against a player who stands on `player` points, each drawn card adding
/// to the dealer's total as `draw_total` says.
pub open spec fn dealer_scaled(player: int, dealer: int, vals: Seq<i32>, counts: Seq<i32>, r: nat) -> (
    int,
    int,
)
    decreases r, counts.len() + 1,
{
    if dealer > 21 {
        (0, 0)
    } else if dealer >= 17 {
        let f = falling(seq_total(counts), r);
        if dealer > player {
            (f, 0)
        } else if dealer == player {
            (0, f)
        } else {
            (0, 0)
        }
    } else if r == 0 {
        (0, 0)
    } else {
        dealer_branches(player, dealer, vals, counts, r, counts.len())
    }
}

/// The weights of the draws of the first `k` card indices.
pub open spec fn dealer_branches(
    player: int,
    dealer: int,
    vals: Seq<i32>,
    counts: Seq<i32>,
    r: nat,
    k: nat,
) -> (int, int)
    decreases r, k,
{
    if r == 0 || k == 0 {
        (0, 0)
    } else {
        let rest = dealer_branches(player, dealer, vals, counts, r, (k - 1) as nat);
        let i = k - 1;
        let child = dealer_scaled(
            player,
            draw_total(dealer, vals[i] as int),
            vals,
            after_draw(counts, i),
            (r - 1) as nat,
        );
        (rest.0 + counts[i] * child.0, rest.1 + counts[i] * child.1)
    }
}

/// Along every way of drawing at most `r` cards, the dealer's running
/// total stays in the `i32` range.
pub open spec fn running_fit(dealer: int, vals: Seq<i32>, counts: Seq<i32>, r: nat) -> bool
    decreases r,
{
    if dealer >= 17 || r == 0 {
        true
    } else {
        forall|i: int|
            0 <= i < counts.len() && #[trigger] counts[i] != 0 ==> fits_i32(draw_total(dealer, vals[i] as int))
                && running_fit(draw_total(dealer, vals[i] as int), vals, after_draw(counts, i), (r - 1) as nat)
    }
}

/// Every card of the deck is worth at least one point.
pub open spec fn all_positive(vals: Seq<i32>, counts: Seq<i32>) -> bool {
    forall|i: int| 0 <= i < counts.len() && i < vals.len() ==> 1 <= #[trigger] vals[i]
}

/// A bound on how many cards the dealer can draw: none from 17 on; while
/// every card is worth a point, no more than the points missing to 17;
/// never more than the deck holds.
pub open spec fn draw_budget(dealer: int, vals: Seq<i32>, counts: Seq<i32>) -> nat {
    let n = seq_total(counts);
    if dealer >= 17 || n <= 0 {
        0
    } else if all_positive(vals, counts) && 17 - dealer < n {
        (17 - dealer) as nat
    } else {
        n as nat
    }
}

proof fn lemma_falling_unfold(m: int, s: nat)
    requires
        s > 0,
    ensures
        falling(m, s) == m * falling(m - 1, (s - 1) as nat),
{
}

proof fn lemma_falling_nonneg(m: int, s: nat)
    requires
        m >= 0,
    ensures
        falling(m, s) >= 0,
    decreases s,
{
    if s > 0 {
        lemma_falling_unfold(m, s);
        if m > 0 {
            lemma_falling_nonneg(m - 1, (s - 1) as nat);
            assert(m * falling(m - 1, (s - 1) as nat) >= 0) by (nonlinear_arith)
                requires
                    m > 0,
                    falling(m - 1, (s - 1) as nat) >= 0,
            ;
        } else {
            assert(m == 0);
            assert(0 * falling(m - 1, (s - 1) as nat) == 0);
        }
    }
}

proof fn lemma_falling_step(m: int, j: nat)
    ensures
        falling(m, j + 1) == falling(m, j) * (m - j),
    decreases j,
{
    lemma_falling_unfold(m, j + 1);
    if j == 0 {
        assert(falling(m - 1, 0) == 1);
        assert(falling(m, 0) == 1);
    } else {
        lemma_falling_step(m - 1, (j - 1) as nat);
        lemma_falling_unfold(m, j);
        let a = falling(m - 1, (j - 1) as nat);
        assert(falling(m - 1, j) == a * (m - 1 - (j - 1)));
        assert(falling(m, j) == m * a);
        assert(m * (a * (m - j)) == (m * a) * (m - j)) by (nonlinear_arith);
    }
}

/// No factor of `falling(m, j)` is below one while `j <= m`.
proof fn lemma_falling_pos(m: int, j: nat)
    requires
        j <= m,
    ensures
        falling(m, j) >= 1,
    decreases j,
{
    if j > 0 {
        lemma_falling_pos(m, (j - 1) as nat);
        lemma_falling_step(m, (j - 1) as nat);
        let a = falling(m, (j - 1) as nat);
        assert(a * (m - (j - 1)) >= 1) by (nonlinear_arith)
            requires
                a >= 1,
                m - (j - 1) >= 1,
        ;
    }
}

/// `falling(m, j)` grows with `j` while no factor is below one.
proof fn lemma_falling_mono(m: int, j: nat, r: nat)
    requires
        j <= r <= m,
    ensures
        1 <= falling(m, j) <= falling(m, r),
    decreases r - j,
{
    lemma_falling_pos(m, j);
    if j < r {
        lemma_falling_mono(m, (j + 1) as nat, r);
        lemma_falling_step(m, j);
        let a = falling(m, j);
        assert(a <= a * (m - j)) by (nonlinear_arith)
            requires
                a >= 1,
                m - j >= 1,
        ;
    }
}

pub proof fn lemma_total_update(counts: Seq<i32>, i: int, v: i32)
    requires
        0 <= i < counts.len(),
    ensures
        seq_total(counts.update(i, v)) == seq_total(counts) - counts[i] + v,
    decreases counts.len(),
{
    let u = counts.update(i, v);
    if i == counts.len() - 1 {
        assert(u.drop_last() =~= counts.drop_last());
    } else {
        lemma_total_update(counts.drop_last(), i, v);
        assert(u.drop_last() =~= counts.drop_last().update(i, v));
    }
}

pub proof fn lemma_total_take(counts: Seq<i32>, k: int)
    requires
        0 <= k < counts.len(),
    ensures
        seq_total(counts.take(k + 1)) == seq_total(counts.take(k)) + counts[k],
{
    assert(counts.take(k + 1).drop_last() =~= counts.take(k));
}

pub proof fn lemma_prefix_nonneg(counts: Seq<i32>, k: int)
    requires
        counts_nonneg(counts),
        0 <= k <= counts.len(),
    ensures
        0 <= seq_total(counts.take(k)),
    decreases k,
{
    if k == 0 {
        assert(counts.take(0) =~= Seq::<i32>::empty());
    } else {
        lemma_prefix_nonneg(counts, k - 1);
        lemma_total_take(counts, k - 1);
    }
}

pub proof fn lemma_total_nonneg(counts: Seq<i32>, k: int)
    requires
        counts_nonneg(counts),
        0 <= k <= counts.len(),
    ensures
        0 <= seq_total(counts.take(k)) <= seq_total(counts),
    decreases counts.len() - k,
{
    lemma_prefix_nonneg(counts, k);
    if k < counts.len() {
        lemma_total_nonneg(counts, k + 1);
        lemma_total_take(counts, k);
    } else {
        assert(counts.take(k) =~= counts);
    }
}

pub proof fn lemma_total_nonneg_all(counts: Seq<i32>)
    requires
        counts_nonneg(counts),
    ensures
        0 <= seq_total(counts),
    decreases counts.len(),
{
    if counts.len() > 0 {
        lemma_total_nonneg_all(counts.drop_last());
    }
}

/// Counts that are never negative and sum into the `i32` range can be
/// summed from the first on.
pub proof fn lemma_nonneg_sums_fit(counts: Seq<i32>)
    requires
        counts_nonneg(counts),
        seq_total(counts) <= i32::MAX,
    ensures
        prefix_sums_fit(counts),
{
    assert forall|k: int| 0 <= k <= counts.len() implies #[trigger] fits_i32(
        seq_total(counts.take(k)),
    ) by {
        lemma_total_nonneg(counts, k);
    }
}

/// `falling(n, r)`.
fn falling_exec(n: i128, r: u64) -> (f: i128)
    requires
        r <= n,
        falling(n as int, r as nat) <= i128::MAX,
    ensures
        f == falling(n as int, r as nat),
{
    let mut f: i128 = 1;
    let mut j: u64 = 0;
    while j < r
        invariant
            j <= r <= n,
            falling(n as int, r as nat) <= i128::MAX,
            f == falling(n as int, j as nat),
        decreases r - j,
    {
        proof {
            lemma_falling_step(n as int, j as nat);
            lemma_falling_mono(n as int, (j + 1) as nat, r as nat);
        }
        f = f * (n - j as i128);
        j = j + 1;
    }
    f
}

/// `falling(n, r)` when it fits an `i128`.
fn checked_falling(n: i128, r: u64) -> (f: Option<i128>)
    requires
        r <= n,
    ensures
        f is None <==> falling(n as int, r as nat) > i128::MAX,
        f matches Some(v) ==> v == falling(n as int, r as nat),
{
    let mut f: i128 = 1;
    let mut j: u64 = 0;
    while j < r
        invariant
            j <= r <= n,
            f == falling(n as int, j as nat),
        decreases r - j,
    {
        proof {
            lemma_falling_step(n as int, j as nat);
            lemma_falling_mono(n as int, j as nat, r as nat);
        }
        match f.checked_mul(n - j as i128) {
            Some(g) => {
                f = g;
            },
            None => {
                proof {
                    lemma_falling_mono(n as int, (j + 1) as nat, r as nat);
                    assert(f * (n - j) >= 1) by (nonlinear_arith)
                        requires
                            f >= 1,
                            n - j >= 1,
                    ;
                }
                return None;
            },
        }
        j = j + 1;
    }
    Some(f)
}

/// Weight bound for one step of the sum over draws.
proof fn lemma_branch_step(acc: int, prefix: int, cnt: int, w: int, t: int, fc: int)
    requires
        0 <= acc <= prefix * fc,
        0 <= cnt,
        0 <= w,
        0 <= t,
        w + t <= fc,
    ensures
        0 <= cnt * w,
        0 <= cnt * t,
        acc + cnt * w + cnt * t <= (prefix + cnt) * fc,
{
    assert(0 <= cnt * w) by (nonlinear_arith)
        requires
            0 <= cnt,
            0 <= w,
    ;
    assert(0 <= cnt * t) by (nonlinear_arith)
        requires
            0 <= cnt,
            0 <= t,
    ;
    assert(cnt * w + cnt * t <= cnt * fc) by (nonlinear_arith)
        requires
            0 <= cnt,
            w + t <= fc,
    ;
    assert((prefix + cnt) * fc == prefix * fc + cnt * fc) by (nonlinear_arith);
}

/// The dealer's (win, tie) weights over `falling(n, r)`, computed by
/// drawing every remaining card in turn.
fn dealer_odds_scaled(
    player: i32,
    dealer: i32,
    vals: &Vec<i32>,
    counts: &Vec<i32>,
    n: i128,
    r: u64,
) -> (weights: (i128, i128))
    requires
        counts_nonneg(counts@),
        n == seq_total(counts@),
        r <= n,
        falling(n as int, r as nat) <= i128::MAX,
        dealer >= 17 || valued(vals@, counts@),
        running_fit(dealer as int, vals@, counts@, r as nat),
    ensures
        weights.0 == dealer_scaled(player as int, dealer as int, vals@, counts@, r as nat).0,
        weights.1 == dealer_scaled(player as int, dealer as int, vals@, counts@, r as nat).1,
        0 <= weights.0,
        0 <= weights.1,
        weights.0 + weights.1 <= falling(n as int, r as nat),
    decreases r,
{
    proof {
        lemma_total_nonneg_all(counts@);
        lemma_falling_nonneg(n as int, r as nat);
    }
    if dealer > 21 {
        return (0, 0);
    }
    if dealer >= 17 {
        let f = falling_exec(n, r);
        if dealer > player {
            return (f, 0);
        } else if dealer == player {
            return (0, f);
        } else {
            return (0, 0);
        }
    }
    if r == 0 {
        return (0, 0);
    }
    let ghost fc = falling(n - 1, (r - 1) as nat);
    proof {
        lemma_total_nonneg(counts@, 0);
        assert(counts@.take(0) =~= Seq::<i32>::empty());
        assert(falling(n as int, r as nat) == n * fc);
    }
    let mut win: i128 = 0;
    let mut tie: i128 = 0;
    let mut i: usize = 0;
    while i < counts.len()
        invariant
            0 <= i <= counts.len(),
            counts_nonneg(counts@),
            n == seq_total(counts@),
            1 <= r <= n,
            dealer < 17,
            fc == falling(n - 1, (r - 1) as nat),
            falling(n as int, r as nat) == n * fc,
            falling(n as int, r as nat) <= i128::MAX,
            valued(vals@, counts@),
            running_fit(dealer as int, vals@, counts@, r as nat),
            win == dealer_branches(player as int, dealer as int, vals@, counts@, r as nat, i as nat).0,
            tie == dealer_branches(player as int, dealer as int, vals@, counts@, r as nat, i as nat).1,
            0 <= win,
            0 <= tie,
            win + tie <= seq_total(counts@.take(i as int)) * fc,
        decreases counts.len() - i,
    {
        let cnt = counts[i];
        let ghost prefix = seq_total(counts@.take(i as int));
        proof {
            lemma_total_take(counts@, i as int);
            lemma_total_nonneg(counts@, i + 1);
        }
        if cnt != 0 {
            assert(i < vals.len());
            assert(fits_i32(draw_total(dealer as int, vals@[i as int] as int)));
            let mut next = counts.clone();
            next.set(i, cnt - 1);
            proof {
                assert(next@ == after_draw(counts@, i as int));
                lemma_total_update(counts@, i as int, (cnt - 1) as i32);
                assert forall|j: int| 0 <= j < next@.len() implies 0 <= #[trigger] next@[j] by {
                    if j != i {
                        assert(next@[j] == counts@[j]);
                    }
                }
                assert forall|j: int| vals@.len() <= j < next@.len() implies #[trigger] next@[j]
                    == 0 by {
                    assert(next@[j] == counts@[j]);
                }
                lemma_falling_nonneg(n - 1, (r - 1) as nat);
                assert(fc <= n * fc) by (nonlinear_arith)
                    requires
                        n >= 1,
                        fc >= 0,
                ;
            }
            let v = vals[i];
            let next_dealer = if v == 11 && dealer > 10 {
                dealer + 1
            } else {
                dealer + v
            };
            assert(next_dealer == draw_total(dealer as int, v as int));
            let (w, t) = dealer_odds_scaled(player, next_dealer, vals, &next, n - 1, r - 1);
            proof {
                lemma_branch_step(win + tie, prefix, cnt as int, w as int, t as int, fc);
                assert((prefix + cnt) * fc <= n * fc) by (nonlinear_arith)
                    requires
                        prefix + cnt <= n,
                        fc >= 0,
                ;
            }
            win = win + cnt as i128 * w;
            tie = tie + cnt as i128 * t;
        }
        i = i + 1;
    }
    proof {
        assert(counts@.take(counts.len() as int) =~= counts@);
    }
    (win, tie)
}


/// The values of the thirteen ranks that `probability_dealer_outcomes`
/// draws from, in the order of the count (2, 3, ..., 10, jack, queen, king,
/// ace): each number its own value, the faces 10, the ace 11 (counted 1
/// where 11 would take the dealer over 21, see `draw_total`).
pub open spec fn outcome_values() -> Seq<i32> {
    seq![2i32, 3, 4, 5, 6, 7, 8, 9, 10, 10, 10, 10, 11]
}

fn outcome_values_exec() -> (vals: Vec<i32>)
    ensures
        vals@ == outcome_values(),
{
    vec![2, 3, 4, 5, 6, 7, 8, 9, 10, 10, 10, 10, 11]
}

/// With card values from 1 to 11 the dealer's running total cannot leave
/// the `i32` range.
proof fn lemma_small_values_fit(dealer: int, vals: Seq<i32>, counts: Seq<i32>, r: nat)
    requires
        forall|i: int| 0 <= i < vals.len() ==> 1 <= #[trigger] vals[i] <= 11,
        fits_i32(dealer),
        dealer >= 17 || valued(vals, counts),
    ensures
        running_fit(dealer, vals, counts, r),
    decreases r,
{
    if dealer < 17 && r > 0 {
        assert forall|i: int|
            0 <= i < counts.len() && #[trigger] counts[i] != 0 implies fits_i32(draw_total(dealer, vals[i] as int))
            && running_fit(draw_total(dealer, vals[i] as int), vals, after_draw(counts, i), (r - 1) as nat) by {
            assert(i < vals.len());
            let next = after_draw(counts, i);
            assert forall|j: int| vals.len() <= j < next.len() implies #[trigger] next[j] == 0 by {
                assert(next[j] == counts[j]);
            }
            lemma_small_values_fit(draw_total(dealer, vals[i] as int), vals, next, (r - 1) as nat);
        }
    }
}

/// Whether `all_positive(vals, counts)`.
fn values_positive(vals: &Vec<i32>, counts: &Vec<i32>) -> (positive: bool)
    ensures
        positive == all_positive(vals@, counts@),
{
    let mut i: usize = 0;
    while i < counts.len() && i < vals.len()
        invariant
            0 <= i <= counts.len(),
            forall|j: int| 0 <= j < i && j < vals.len() ==> 1 <= #[trigger] vals@[j],
        decreases counts.len() - i,
    {
        if vals[i] < 1 {
            return false;
        }
        i = i + 1;
    }
    true
}

/// `draw_budget(dealer, vals, counts)` for a deck of `n` cards.
fn budget_of(dealer: i32, vals: &Vec<i32>, counts: &Vec<i32>, n: i32) -> (r: u64)
    requires
        n == seq_total(counts@),
    ensures
        r == draw_budget(dealer as int, vals@, counts@),
        r <= n || r == 0,
{
    if dealer >= 17 || n <= 0 {
        return 0;
    }
    let missing: i64 = 17 - dealer as i64;
    if values_positive(vals, counts) && missing < n as i64 {
        missing as u64
    } else {
        n as u64
    }
}

/// The dealer's chances of beating and of tying a player who stands on
/// `player_total`, the dealer holding `dealer_total` and drawing from
/// `cards_remaining`, where index `i` holds cards worth
/// `outcome_values()[i]`. Each chance comes as a fraction over
/// `falling(n, r)` for the `n` remaining cards and the draw budget `r`;
/// `None` where that denominator does not fit an `i128`.
pub fn probability_dealer_outcomes(player_total: i32, dealer_total: i32, cards_remaining: &Vec<i32>) -> (odds:
    Option<(Fraction, Fraction)>)
    requires
        dealer_total >= 17 || (counts_nonneg(cards_remaining@) && seq_total(cards_remaining@)
            <= i32::MAX && valued(outcome_values(), cards_remaining@)),
    ensures
        ({
            let n = seq_total(cards_remaining@);
            let r = draw_budget(dealer_total as int, outcome_values(), cards_remaining@);
            let w = dealer_scaled(
                player_total as int,
                dealer_total as int,
                outcome_values(),
                cards_remaining@,
                r,
            );
            &&& odds is None <==> falling(n, r) > i128::MAX
            &&& odds matches Some(pair) ==> {
                &&& pair.0.numerator == w.0
                &&& pair.1.numerator == w.1
                &&& pair.0.denominator == falling(n, r)
                &&& pair.1.denominator == falling(n, r)
            }
        }),
        dealer_total > 21 ==> odds == Some((zero_chance(), zero_chance())),
        17 <= dealer_total <= 21 ==> odds == Some(
            (
                Fraction { numerator: if dealer_total > player_total { 1 } else { 0 }, denominator: 1 },
                Fraction { numerator: if dealer_total == player_total { 1 } else { 0 }, denominator: 1 },
            ),
        ),
{
    if dealer_total > 21 {
        return Some((Fraction { numerator: 0, denominator: 1 }, Fraction { numerator: 0, denominator: 1 }));
    }
    if dealer_total >= 17 {
        let win: i128 = if dealer_total > player_total { 1 } else { 0 };
        let tie: i128 = if dealer_total == player_total { 1 } else { 0 };
        return Some((Fraction { numerator: win, denominator: 1 }, Fraction { numerator: tie, denominator: 1 }));
    }
    let vals = outcome_values_exec();
    proof {
        lemma_nonneg_sums_fit(cards_remaining@);
        lemma_total_nonneg_all(cards_remaining@);
    }
    let n = total_of(cards_remaining);
    let r = budget_of(dealer_total, &vals, cards_remaining, n);
    let scale = checked_falling(n as i128, r);
    match scale {
        None => None,
        Some(f) => {
            proof {
                lemma_small_values_fit(dealer_total as int, vals@, cards_remaining@, r as nat);
            }
            let (win, tie) = dealer_odds_scaled(
                player_total,
                dealer_total,
                &vals,
                cards_remaining,
                n as i128,
                r,
            );
            Some(
                (
                    Fraction { numerator: win, denominator: f },
                    Fraction { numerator: tie, denominator: f },
                ),
            )
        },
    }
}

/// The dealer's chance of beating a player who stands on
/// `curr_player1_hand`, the dealer holding `curr_dealer_hand` and drawing
/// from `card_counts`, where index `i` holds cards worth `card_vals[i]`
/// (a card worth 11, an ace, counts 1 where 11 would take the dealer over
/// 21). The chance comes as a fraction over `falling(n, r)` for the `n`
/// remaining cards and the draw budget `r`; `None` where that denominator
/// does not fit an `i128`.
pub fn probability_dealer_win(
    curr_player1_hand: i32,
    card_vals: &Vec<i32>,
    card_counts: &Vec<i32>,
    curr_dealer_hand: i32,
) -> (chance: Option<Fraction>)
    requires
        curr_dealer_hand >= 17 || (counts_nonneg(card_counts@) && seq_total(card_counts@)
            <= i32::MAX && valued(card_vals@, card_counts@)),
        running_fit(
            curr_dealer_hand as int,
            card_vals@,
            card_counts@,
            draw_budget(curr_dealer_hand as int, card_vals@, card_counts@),
        ),
    ensures
        ({
            let n = seq_total(card_counts@);
            let r = draw_budget(curr_dealer_hand as int, card_vals@, card_counts@);
            &&& chance is None <==> falling(n, r) > i128::MAX
            &&& chance matches Some(c) ==> c.numerator == dealer_scaled(
                curr_player1_hand as int,
                curr_dealer_hand as int,
                card_vals@,
                card_counts@,
                r,
            ).0 && c.denominator == falling(n, r)
        }),
        curr_dealer_hand > 21 ==> chance == Some(zero_chance()),
        17 <= curr_dealer_hand <= 21 ==> chance == Some(
            Fraction {
                numerator: if curr_dealer_hand > curr_player1_hand { 1 } else { 0 },
                denominator: 1,
            },
        ),
{
    if curr_dealer_hand > 21 {
        return Some(Fraction { numerator: 0, denominator: 1 });
    }
    if curr_dealer_hand >= 17 {
        let win: i128 = if curr_dealer_hand > curr_player1_hand { 1 } else { 0 };
        return Some(Fraction { numerator: win, denominator: 1 });
    }
    proof {
        lemma_nonneg_sums_fit(card_counts@);
        lemma_total_nonneg_all(card_counts@);
    }
    let n = total_of(card_counts);
    let r = budget_of(curr_dealer_hand, card_vals, card_counts, n);
    match checked_falling(n as i128, r) {
        None => None,
        Some(f) => {
            let (win, _tie) = dealer_odds_scaled(
                curr_player1_hand,
                curr_dealer_hand,
                card_vals,
                card_counts,
                n as i128,
                r,
            );
            Some(Fraction { numerator: win, denominator: f })
        },
    }
}


proof fn lemma_child_total(counts: Seq<i32>, i: int)
    requires
        counts_nonneg(counts),
        0 <= i < counts.len(),
        counts[i] >= 1,
    ensures
        seq_total(after_draw(counts, i)) == seq_total(counts) - 1,
        counts_nonneg(after_draw(counts, i)),
{
    lemma_total_update(counts, i, (counts[i] - 1) as i32);
    let next = after_draw(counts, i);
    assert forall|j: int| 0 <= j < next.len() implies 0 <= #[trigger] next[j] by {
        if j != i {
            assert(next[j] == counts[j]);
        }
    }
}

proof fn lemma_child_valued(vals: Seq<i32>, counts: Seq<i32>, i: int)
    requires
        valued(vals, counts),
        0 <= i < counts.len(),
        i < vals.len(),
    ensures
        valued(vals, after_draw(counts, i)),
{
    let next = after_draw(counts, i);
    assert forall|j: int| vals.len() <= j < next.len() implies #[trigger] next[j] == 0 by {
        assert(next[j] == counts[j]);
    }
}

/// An empty deck holds no card of any index.
proof fn lemma_empty_deck(counts: Seq<i32>, i: int)
    requires
        counts_nonneg(counts),
        seq_total(counts) == 0,
        0 <= i < counts.len(),
    ensures
        counts[i] == 0,
{
    lemma_total_nonneg(counts, i + 1);
    lemma_prefix_nonneg(counts, i);
    lemma_total_take(counts, i);
}

proof fn lemma_empty_branches(
    player: int,
    dealer: int,
    vals: Seq<i32>,
    counts: Seq<i32>,
    r: nat,
    k: nat,
)
    requires
        counts_nonneg(counts),
        seq_total(counts) == 0,
        k <= counts.len(),
    ensures
        dealer_branches(player, dealer, vals, counts, r, k) == (0int, 0int),
    decreases k,
{
    if r > 0 && k > 0 {
        lemma_empty_branches(player, dealer, vals, counts, r, (k - 1) as nat);
        lemma_empty_deck(counts, k - 1);
        let child = dealer_scaled(
            player,
            draw_total(dealer, vals[k - 1] as int),
            vals,
            after_draw(counts, k - 1),
            (r - 1) as nat,
        );
        assert(0 * child.0 == 0 && 0 * child.1 == 0);
    }
}

/// The dealer's chances are chances: neither is negative and together
/// they are at most one (the player's chance of winning by standing,
/// one minus both, is never negative).
pub proof fn lemma_dealer_chances_bounded(
    player: int,
    dealer: int,
    vals: Seq<i32>,
    counts: Seq<i32>,
    r: nat,
)
    requires
        counts_nonneg(counts),
    ensures
        0 <= dealer_scaled(player, dealer, vals, counts, r).0,
        0 <= dealer_scaled(player, dealer, vals, counts, r).1,
        dealer_scaled(player, dealer, vals, counts, r).0 + dealer_scaled(
            player,
            dealer,
            vals,
            counts,
            r,
        ).1 <= falling(seq_total(counts), r),
    decreases r, counts.len() + 1,
{
    let n = seq_total(counts);
    lemma_total_nonneg_all(counts);
    lemma_falling_nonneg(n, r);
    if dealer <= 21 && dealer < 17 && r > 0 {
        lemma_branches_bounded(player, dealer, vals, counts, r, counts.len());
        assert(counts.take(counts.len() as int) =~= counts);
        lemma_falling_unfold(n, r);
    }
}

proof fn lemma_branches_bounded(
    player: int,
    dealer: int,
    vals: Seq<i32>,
    counts: Seq<i32>,
    r: nat,
    k: nat,
)
    requires
        counts_nonneg(counts),
        r >= 1,
        k <= counts.len(),
    ensures
        0 <= dealer_branches(player, dealer, vals, counts, r, k).0,
        0 <= dealer_branches(player, dealer, vals, counts, r, k).1,
        dealer_branches(player, dealer, vals, counts, r, k).0 + dealer_branches(
            player,
            dealer,
            vals,
            counts,
            r,
            k,
        ).1 <= seq_total(counts.take(k as int)) * falling(seq_total(counts) - 1, (r - 1) as nat),
    decreases r, k,
{
    let n = seq_total(counts);
    let fc = falling(n - 1, (r - 1) as nat);
    if k == 0 {
        assert(counts.take(0) =~= Seq::<i32>::empty());
    } else {
        let i = k - 1;
        lemma_branches_bounded(player, dealer, vals, counts, r, (k - 1) as nat);
        lemma_total_take(counts, i);
        lemma_prefix_nonneg(counts, i);
        let rest = dealer_branches(player, dealer, vals, counts, r, (k - 1) as nat);
        let child = dealer_scaled(
            player,
            draw_total(dealer, vals[i] as int),
            vals,
            after_draw(counts, i),
            (r - 1) as nat,
        );
        if counts[i] == 0 {
            assert(0 * child.0 == 0 && 0 * child.1 == 0);
        } else {
            lemma_child_total(counts, i);
            lemma_dealer_chances_bounded(
                player,
                draw_total(dealer, vals[i] as int),
                vals,
                after_draw(counts, i),
                (r - 1) as nat,
            );
            lemma_branch_step(
                rest.0 + rest.1,
                seq_total(counts.take(i)),
                counts[i] as int,
                child.0,
                child.1,
                fc,
            );
        }
    }
}

/// Drawing one card shortens the draw budget.
proof fn lemma_child_budget(dealer: int, vals: Seq<i32>, counts: Seq<i32>, i: int)
    requires
        counts_nonneg(counts),
        valued(vals, counts),
        dealer < 17,
        0 <= i < counts.len(),
        counts[i] >= 1,
    ensures
        draw_budget(draw_total(dealer, vals[i] as int), vals, after_draw(counts, i)) + 1 <= draw_budget(
            dealer,
            vals,
            counts,
        ),
{
    lemma_child_total(counts, i);
    let next = after_draw(counts, i);
    assert(i < vals.len());
    assert(next.len() == counts.len());
    assert(all_positive(vals, next) == all_positive(vals, counts));
    let n = seq_total(counts);
    let d2 = draw_total(dealer, vals[i] as int);
    if all_positive(vals, counts) {
        assert(1 <= vals[i]);
    }
    if all_positive(vals, counts) && 17 - dealer < n {
        lemma_total_nonneg_all(next);
        assert(draw_budget(dealer, vals, counts) == 17 - dealer);
        if d2 >= 17 || n - 1 <= 0 {
        } else if 17 - d2 < n - 1 {
            assert(draw_budget(d2, vals, next) == 17 - d2);
        } else {
            assert(draw_budget(d2, vals, next) == n - 1);
        }
    } else {
        lemma_total_nonneg_all(next);
        assert(n >= 1);
        assert(draw_budget(dealer, vals, counts) == n);
        if d2 >= 17 || n - 1 <= 0 {
        } else if all_positive(vals, next) && 17 - d2 < n - 1 {
            assert(draw_budget(d2, vals, next) == 17 - d2);
        } else {
            assert(draw_budget(d2, vals, next) == n - 1);
        }
    }
}

/// The draw budget does not change the chances: a budget one larger than
/// any at least `draw_budget` multiplies both weights by the same factor
/// as their common denominator, `falling(n, r + 1) = falling(n, r) * (n - r)`.
pub proof fn lemma_budget_free(player: int, dealer: int, vals: Seq<i32>, counts: Seq<i32>, r: nat)
    requires
        counts_nonneg(counts),
        dealer >= 17 || valued(vals, counts),
        r >= draw_budget(dealer, vals, counts),
    ensures
        dealer_scaled(player, dealer, vals, counts, r + 1).0 == dealer_scaled(
            player,
            dealer,
            vals,
            counts,
            r,
        ).0 * (seq_total(counts) - r),
        dealer_scaled(player, dealer, vals, counts, r + 1).1 == dealer_scaled(
            player,
            dealer,
            vals,
            counts,
            r,
        ).1 * (seq_total(counts) - r),
        falling(seq_total(counts), r + 1) == falling(seq_total(counts), r) * (seq_total(counts)
            - r),
    decreases r, counts.len() + 1,
{
    let n = seq_total(counts);
    lemma_total_nonneg_all(counts);
    lemma_falling_step(n, r);
    if dealer > 21 {
    } else if dealer >= 17 {
        let f = falling(n, r);
        assert(0 * (n - r) == 0);
    } else if n == 0 {
        lemma_empty_branches(player, dealer, vals, counts, r + 1, counts.len());
        if r > 0 {
            lemma_empty_branches(player, dealer, vals, counts, r, counts.len());
        }
        assert(0 * (n - r) == 0);
    } else {
        lemma_branches_budget(player, dealer, vals, counts, r, counts.len());
    }
}

proof fn lemma_branches_budget(
    player: int,
    dealer: int,
    vals: Seq<i32>,
    counts: Seq<i32>,
    r: nat,
    k: nat,
)
    requires
        counts_nonneg(counts),
        valued(vals, counts),
        dealer < 17,
        seq_total(counts) >= 1,
        r >= draw_budget(dealer, vals, counts),
        k <= counts.len(),
    ensures
        r >= 1,
        dealer_branches(player, dealer, vals, counts, r + 1, k).0 == dealer_branches(
            player,
            dealer,
            vals,
            counts,
            r,
            k,
        ).0 * (seq_total(counts) - r),
        dealer_branches(player, dealer, vals, counts, r + 1, k).1 == dealer_branches(
            player,
            dealer,
            vals,
            counts,
            r,
            k,
        ).1 * (seq_total(counts) - r),
    decreases r, k,
{
    let n = seq_total(counts);
    if k == 0 {
        assert(0 * (n - r) == 0);
    } else {
        let i = k - 1;
        lemma_branches_budget(player, dealer, vals, counts, r, (k - 1) as nat);
        let a = dealer_branches(player, dealer, vals, counts, r, (k - 1) as nat);
        let b = dealer_branches(player, dealer, vals, counts, r + 1, (k - 1) as nat);
        let next = after_draw(counts, i);
        let x = dealer_scaled(player, draw_total(dealer, vals[i] as int), vals, next, (r - 1) as nat);
        let y = dealer_scaled(player, draw_total(dealer, vals[i] as int), vals, next, r);
        let c = counts[i] as int;
        if c == 0 {
            assert(0 * x.0 == 0 && 0 * x.1 == 0 && 0 * y.0 == 0 && 0 * y.1 == 0);
        } else {
            lemma_child_total(counts, i);
            lemma_child_valued(vals, counts, i);
            lemma_child_budget(dealer, vals, counts, i);
            lemma_budget_free(player, draw_total(dealer, vals[i] as int), vals, next, (r - 1) as nat);
            assert(y.0 == x.0 * (n - r));
            assert(y.1 == x.1 * (n - r));
            assert(b.0 + c * y.0 == (a.0 + c * x.0) * (n - r)) by (nonlinear_arith)
                requires
                    b.0 == a.0 * (n - r),
                    y.0 == x.0 * (n - r),
            ;
            assert(b.1 + c * y.1 == (a.1 + c * x.1) * (n - r)) by (nonlinear_arith)
                requires
                    b.1 == a.1 * (n - r),
                    y.1 == x.1 * (n - r),
            ;
        }
    }
}

} // verus!
