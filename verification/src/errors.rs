//! The legality-failure taxonomy of the engine.

use vstd::prelude::*;

use crate::cards::Card;

verus! {

/// Why a single card cannot be played where the caller asked.
#[derive(Clone, Copy, Debug, PartialEq, Eq, Structural)]
pub enum IllegalCardPlayed {
    /// The destination lies outside the playable area.
    OutOfBounds,
    /// The destination holds a face-up card the played card cannot cover.
    IncompatibleCard { existing_card: Card },
    /// A king was played onto another card, but no target for its
    /// ability was given.
    NoTargetForKingAbility,
    /// The given king-ability target is not a field on the board.
    TargetForKingAbilityDoesNotExist { tgt_i: i8, tgt_j: i8 },
    /// The given king-ability target is already face-down.
    TargetForKingAbilityIsFaceDown { tgt_i: i8, tgt_j: i8 },
}

/// Why a whole turn is illegal.
#[derive(Clone, Copy, Debug, PartialEq, Eq, Structural)]
pub enum IllegalMove {
    PlayedCardNotInHand,
    PlayedZeroCards,
    PlayedMoreThanFiveCards,
    IllegalCardPlayed { card_idx: usize, card: Card, err: IllegalCardPlayed },
    PlayedCardAfterEndOfCombo { card_idx: usize },
    PrematurelyEndedCombo { card_idx: usize },
}

} // verus!
