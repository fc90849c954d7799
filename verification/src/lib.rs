//! Card arithmetic and exact odds behind a blackjack table assistant:
//! hand totals with soft aces, the chance of busting or of reaching 21 with
//! the next card, the dealer's chances of winning or tying when the player
//! stands, and the rules of a simulated table.

pub mod cards;
pub mod hand;
pub mod odds;
pub mod dealer;
pub mod draw;
pub mod game;
pub mod rules;
