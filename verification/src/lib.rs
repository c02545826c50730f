//! Rules engine for a two-player card game played on an unbounded 2D grid.
//!
//! Cards are placed adjacent to or atop existing cards, face cards trigger
//! flip effects, and four face-up cards of one suit in a row capture cards.
//! The crate provides the board representation, the legality and effect
//! computation for a single placement, and the diff/apply protocol that
//! produces successor board states.

pub mod bbox;
pub mod bitboard;
pub mod bitops;
pub mod board;
pub mod card_counting;
pub mod cards;
pub mod cards_set;
pub mod compact_field;
pub mod dense;
pub mod errors;
pub mod game_state;
pub mod judge;
pub mod player_state;
pub mod protocol_types;
pub mod turn;

pub use bbox::BoundingBox;
pub use bitboard::BitBoard;
pub use board::Board;
pub use board::PlayCardCalculation;
pub use cards::Card;
pub use cards::CardFromStrErr;
pub use cards::Rank;
pub use cards::Suit;
pub use cards_set::CardsSet;
pub use compact_field::CompactField;
pub use errors::IllegalCardPlayed;
pub use errors::IllegalMove;
pub use game_state::GameState;
pub use player_state::PlayerState;
pub use protocol_types::CardToPlace;
pub use protocol_types::Color;
pub use protocol_types::Field;
pub use protocol_types::PlayTurnResponse;
pub use turn::TurnOutcome;
