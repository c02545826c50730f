//! The state of one player during a game: draw pile, hand, and the
//! cards won so far.

use vstd::prelude::*;

use crate::cards::card_of_index;
use crate::cards::Card;
use crate::cards::Suit;
use crate::cards_set::black_cards;
use crate::cards_set::red_cards;
use crate::cards_set::spec_black_deck;
use crate::cards_set::spec_red_deck;
use crate::cards_set::CardsSet;
use crate::protocol_types::Color;

verus! {

/// The state for a single player during one game.
#[derive(Clone, Debug)]
pub struct PlayerState {
    pub draw_pile: Vec<Card>,
    pub hand: Vec<Card>,
    pub won_cards: CardsSet,
}

/// A player state the turn executor accepts: a hand of five cards.
pub open spec fn player_state_wf(s: PlayerState) -> bool {
    s.hand@.len() == 5
}

/// The given color's half of the deck, as dealt.
pub open spec fn spec_color_deck(color: Color) -> Seq<Card> {
    match color {
        Color::Red => spec_red_deck(),
        Color::Black => spec_black_deck(),
    }
}

/// Whether the card belongs to the given color's half of the deck.
pub open spec fn is_of_color(color: Color, c: Card) -> bool {
    match color {
        Color::Red => c.suit == Suit::Diamond || c.suit == Suit::Heart,
        Color::Black => c.suit == Suit::Spade || c.suit == Suit::Club,
    }
}

/// The random number generator used to shuffle decks.
#[verifier::external_type_specification]
#[verifier::external_body]
pub struct ExStdRng(rand::rngs::StdRng);

/// Relies on rand's `SliceRandom::shuffle`: it permutes the slice in
/// place, so the cards of the deck are kept, whatever order comes out.
#[verifier::external_body]
fn shuffle_deck(deck: &mut Vec<Card>, rng: &mut rand::rngs::StdRng)
    ensures
        final (deck)@.to_multiset() == old(deck)@.to_multiset(),
{
    rand::seq::SliceRandom::shuffle(&mut deck[..], rng);
}

impl PlayerState {
    /// Deals a player's half of the deck: shuffles the 26 cards of the
    /// given color and moves five of them into the hand.
    pub fn new(color: Color, rng: &mut rand::rngs::StdRng) -> (r: PlayerState)
        ensures
            player_state_wf(r),
            r.draw_pile@.len() == 21,
            r.won_cards@ == Set::<Card>::empty(),
            forall|k: int| 0 <= k < 21 ==> is_of_color(color, #[trigger] r.draw_pile@[k]),
            forall|k: int| 0 <= k < 5 ==> is_of_color(color, #[trigger] r.hand@[k]),
            r.hand@.to_multiset().add(r.draw_pile@.to_multiset()) == spec_color_deck(
                color,
            ).to_multiset(),
    {
        let mut draw_pile = match color {
            Color::Black => black_cards(),
            Color::Red => red_cards(),
        };
        proof {
            assert forall|k: int| 0 <= k < draw_pile@.len() implies is_of_color(
                color,
                #[trigger] draw_pile@[k],
            ) by {
                let a = k % 13;
                let b = k / 13;
                assert(0 <= a < 13 && 0 <= b < 2);
                match color {
                    Color::Red => {
                        assert(draw_pile@[k] == card_of_index(4 * a + b));
                        assert((4 * a + b) % 4 == b) by (nonlinear_arith)
                            requires
                                0 <= a && 0 <= b < 4,
                        ;
                    },
                    Color::Black => {
                        assert(draw_pile@[k] == card_of_index(4 * a + b + 2));
                        assert((4 * a + b + 2) % 4 == b + 2) by (nonlinear_arith)
                            requires
                                0 <= a && 0 <= b < 2,
                        ;
                    },
                }
            }
        }
        let ghost before = draw_pile@;
        shuffle_deck(&mut draw_pile, rng);
        proof {
            broadcast use vstd::seq_lib::group_to_multiset_ensures;

            assert(draw_pile@.to_multiset().len() == before.to_multiset().len());
            assert(draw_pile@.len() == 26);
            assert forall|k: int| 0 <= k < draw_pile@.len() implies is_of_color(
                color,
                #[trigger] draw_pile@[k],
            ) by {
                assert(draw_pile@.to_multiset().contains(draw_pile@[k]));
                assert(before.contains(draw_pile@[k]));
            }
        }
        proof {
            assert(draw_pile@.to_multiset() == spec_color_deck(color).to_multiset());
        }
        let mut hand: Vec<Card> = Vec::new();
        for k in 0..5u8
            invariant
                hand@.len() == k,
                draw_pile@.len() == 26 - k,
                forall|m: int|
                    0 <= m < draw_pile@.len() ==> is_of_color(color, #[trigger] draw_pile@[m]),
                forall|m: int| 0 <= m < hand@.len() ==> is_of_color(color, #[trigger] hand@[m]),
                hand@.to_multiset().add(draw_pile@.to_multiset()) == spec_color_deck(
                    color,
                ).to_multiset(),
        {
            let ghost pile_pre = draw_pile@;
            let ghost hand_pre = hand@;
            let c = draw_pile.pop().unwrap();
            hand.push(c);
            proof {
                broadcast use vstd::seq_lib::group_to_multiset_ensures;
                broadcast use vstd::multiset::group_multiset_axioms;

                assert(draw_pile@ =~= pile_pre.remove(pile_pre.len() - 1));
                pile_pre.to_multiset_ensures();
                vstd::seq_lib::to_multiset_remove(pile_pre, pile_pre.len() - 1);
                assert(hand@.to_multiset() == hand_pre.to_multiset().insert(c));
                assert(draw_pile@.to_multiset() == pile_pre.to_multiset().remove(c));
                assert(hand@.to_multiset().add(draw_pile@.to_multiset()) =~= spec_color_deck(
                    color,
                ).to_multiset());
            }
        }
        PlayerState { draw_pile, hand, won_cards: CardsSet::new() }
    }
}

} // verus!
