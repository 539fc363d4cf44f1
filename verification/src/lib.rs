//! Go Fish for a fixed number of players around one standard deck.
//!
//! The cards live in `cardpack` piles; the rules of the game (pair matching,
//! asking, turns, the end of the game) are stated over the cards each pile
//! holds and proved against those statements.

pub mod card;
pub mod game;
pub mod pairs;
pub mod pile;
pub mod player;
pub mod random;
pub mod standard;
pub mod table;
pub mod winner;

pub use crate::card::Card;
pub use crate::game::{run_game, Deck, GameState};
pub use crate::pairs::find_pair;
pub use crate::player::Player;
pub use crate::random::{get_random, get_random_excluding};
pub use crate::table::{AskCardResult, GameMode, PlayerTurnResult};
pub use crate::winner::EndGameCondition;
