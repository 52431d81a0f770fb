//! A five-card-draw poker dealer: a 52-card deck, seated players with hands
//! and chip stacks, dealing from a shuffled deck, a pure hand evaluator with
//! full tie-break resolution, and winner determination at showdown.
//!
//! Every operation carries a contract. The dealing contracts keep the
//! 52-card universe conserved and duplicate-free across the deck and all
//! hands; the evaluator's contract pins its classification to a mathematical
//! key, so equal hands always tie and higher categories always win.

pub mod card;
pub mod dealer;
pub mod eval;
pub mod game;
pub mod player;

pub use card::Card;
pub use card::Suit;
pub use card::Value;
pub use dealer::DealerError;
pub use dealer::FiveDrawDealer;
pub use game::Game;
pub use game::GameSession;
pub use player::Player;
pub use player::Stats;
