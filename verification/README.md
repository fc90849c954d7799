# blackjack_assistant

A blackjack helper: it keeps the hand totals of a player and a dealer,
computes the player's chances (of busting, of reaching 21 with the next
card, of the dealer winning or tying if the player stands), and runs a
simulated game against a dealer drawing from one deck.

The library in `src/` is verified with Verus:

- `cards.rs` – card names and their values.
- `hand.rs` – hand totals with aces counted high until the hand would bust.
- `odds.rs` – exact chances for the next card, as fractions of the deck.
- `dealer.rs` – the dealer's exact chances of winning and tying, by drawing
  every remaining card in turn over a common denominator.
- `draw.rs` – drawing a random card that was not dealt yet.
- `game.rs` – the table's state and the rules of its buttons.

`app/main.rs` is the window (egui/eframe): it draws the table, turns clicks
into calls of the library and shows the chances as percentages.
