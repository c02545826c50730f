//! Card counting for bots: information about the cards in the game,
//! derived from observing all played cards.

use vstd::prelude::*;

use crate::cards::Card;
use crate::cards_set::black_cards_set;
use crate::cards_set::red_cards_set;
use crate::cards_set::CardsSet;
use crate::compact_field::CompactField;
use crate::protocol_types::Color;
use crate::protocol_types::Field;

verus! {

/// Information about the cards in the game, derived from observing all
/// played cards.
#[derive(Clone, Copy, Debug)]
pub struct CardCounter {
    /// Cards in our draw pile.
    pub draw_pile: CardsSet,
    /// Cards in the opponent's draw pile or hand; the two cannot be
    /// told apart.
    pub available_cards_opponent: CardsSet,
    /// Cards won by us.
    pub cards_won_self: CardsSet,
    /// Cards won by our opponent.
    pub cards_won_opponent: CardsSet,
}

impl CardCounter {
    /// The counter at the start of a game: we hold our color's half of
    /// the deck, the opponent the other half, and nothing is won yet.
    pub fn new(color: Color) -> (r: CardCounter)
        ensures
            forall|c: Card|
                r.draw_pile@.contains(c) == crate::player_state::is_of_color(color, c),
            forall|c: Card|
                r.available_cards_opponent@.contains(c) == !crate::player_state::is_of_color(
                    color,
                    c,
                ),
            r.cards_won_self@ == Set::<Card>::empty(),
            r.cards_won_opponent@ == Set::<Card>::empty(),
    {
        let (draw_pile, available_cards_opponent) = match color {
            Color::Black => (black_cards_set(), red_cards_set()),
            Color::Red => (red_cards_set(), black_cards_set()),
        };
        CardCounter {
            draw_pile,
            available_cards_opponent,
            cards_won_self: CardsSet::new(),
            cards_won_opponent: CardsSet::new(),
        }
    }

    /// Note the hand we were dealt: those cards have left our draw pile.
    pub fn note_own_hand(&mut self, cards: &Vec<Card>)
        ensures
            forall|c: Card|
                final (self).draw_pile@.contains(c) == (old(self).draw_pile@.contains(c)
                    && !cards@.contains(c)),
            final (self).available_cards_opponent == old(self).available_cards_opponent,
            final (self).cards_won_self == old(self).cards_won_self,
            final (self).cards_won_opponent == old(self).cards_won_opponent,
    {
        let seen = CardsSet::from_cards(cards);
        self.draw_pile = self.draw_pile.difference(seen);
    }

    /// Note the cards the opponent won: they are no longer available to
    /// them as playable cards.
    pub fn note_opponent_win(&mut self, cards_won_by_opponent: CardsSet)
        ensures
            final (self).cards_won_opponent@ == old(self).cards_won_opponent@.union(
                cards_won_by_opponent@,
            ),
            final (self).available_cards_opponent@ == old(
                self,
            ).available_cards_opponent@.difference(cards_won_by_opponent@),
            final (self).draw_pile == old(self).draw_pile,
            final (self).cards_won_self == old(self).cards_won_self,
    {
        self.cards_won_opponent = self.cards_won_opponent.union(cards_won_by_opponent);
        self.available_cards_opponent = self.available_cards_opponent.difference(
            cards_won_by_opponent,
        );
    }

    /// Note a transmitted field: every card visible or hidden on it is
    /// on the board, so the opponent no longer holds it.
    pub fn note_field(&mut self, field: &Field)
        ensures
            forall|c: Card|
                final (self).available_cards_opponent@.contains(c) == (old(
                    self,
                ).available_cards_opponent@.contains(c) && !(field.hidden_cards@.to_set().contains(
                    c,
                ) || field.top_card == Some(c))),
            final (self).draw_pile == old(self).draw_pile,
            final (self).cards_won_self == old(self).cards_won_self,
            final (self).cards_won_opponent == old(self).cards_won_opponent,
    {
        let on_field = CompactField::from_field(field).all_cards();
        self.available_cards_opponent = self.available_cards_opponent.difference(on_field);
    }

    /// Note cards we won ourselves.
    pub fn note_own_win(&mut self, cards_won: CardsSet)
        ensures
            final (self).cards_won_self@ == old(self).cards_won_self@.union(cards_won@),
            final (self).draw_pile == old(self).draw_pile,
            final (self).available_cards_opponent == old(self).available_cards_opponent,
            final (self).cards_won_opponent == old(self).cards_won_opponent,
    {
        self.cards_won_self = self.cards_won_self.union(cards_won);
    }
}

impl Default for CardCounter {
    /// A counter with nothing known.
    fn default() -> (r: Self)
        ensures
            r.draw_pile@ == Set::<Card>::empty(),
            r.available_cards_opponent@ == Set::<Card>::empty(),
            r.cards_won_self@ == Set::<Card>::empty(),
            r.cards_won_opponent@ == Set::<Card>::empty(),
    {
        CardCounter {
            draw_pile: CardsSet::new(),
            available_cards_opponent: CardsSet::new(),
            cards_won_self: CardsSet::new(),
            cards_won_opponent: CardsSet::new(),
        }
    }
}

/// Implement this trait on a bot to let a [`CardCountingWrapper`] reach
/// its counter.
pub trait HasCardCounter {
    /// The bot's counter.
    fn get_counter(&mut self) -> &mut CardCounter;
}

/// Wraps a bot and keeps its [`CardCounter`] up to date as requests
/// pass through.
pub struct CardCountingWrapper<T> where T: HasCardCounter {
    /// The wrapped bot.
    pub bot: T,
}

impl<T> CardCountingWrapper<T> where T: HasCardCounter {
    /// Wraps the bot.
    pub fn new(bot: T) -> (r: Self) {
        Self { bot }
    }
}

} // verus!
