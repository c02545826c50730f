//! The turn executor: validates a whole turn's sequence of placements
//! against a player's hand, applies them, and replenishes the hand.

use vstd::prelude::*;

use crate::board::spec_card_placeable;
use crate::board::Board;
use crate::cards::Card;
use crate::cards_set::CardsSet;
use crate::errors::IllegalMove;
use crate::player_state::player_state_wf;
use crate::player_state::PlayerState;
use crate::protocol_types::CardToPlace;
use crate::protocol_types::Field;
use crate::protocol_types::PlayTurnResponse;

verus! {

/// Summarizes the outcome of playing a move.
#[derive(Debug)]
pub enum TurnOutcome {
    /// The player could not play and skipped the turn.
    Skipped,
    /// A normal turn; the named cards were won by it.
    Normal { cards_won_this_turn: CardsSet },
    /// The player's draw pile ran out: the game is over.
    GameEnded,
}

/// Whether the player holds some card the board accepts somewhere.
pub open spec fn spec_some_card_placeable(board: Board, hand: Seq<Card>) -> bool {
    exists|h: int| 0 <= h < hand.len() && spec_card_placeable(board, #[trigger] hand[h])
}

/// The set of cards still in hand after the first `k` placements of the
/// turn have been played.
pub open spec fn spec_hand_after(hand: Set<Card>, action: Seq<CardToPlace>, k: int) -> Set<Card>
    decreases k,
{
    if k <= 0 {
        hand
    } else {
        spec_hand_after(hand, action, k - 1).remove(action[k - 1].card)
    }
}

/// One step of the hand-evolution recursion, unfolded.
proof fn lemma_hand_after_step(hand: Set<Card>, action: Seq<CardToPlace>, k: int)
    requires
        k >= 0,
    ensures
        spec_hand_after(hand, action, k + 1) == spec_hand_after(hand, action, k).remove(
            action[k].card,
        ),
{
}

/// Plays the very first card of a game: checks it is in the player's
/// hand, replaces it there from the draw pile, and builds the board
/// holding just that card at `(0, 0)`.
pub fn execute_first_turn(state: &mut PlayerState, card_to_place: Card) -> (r: Result<
    Board,
    IllegalMove,
>)
    requires
        player_state_wf(*old(state)),
        old(state).draw_pile@.len() >= 5,
    ensures
        player_state_wf(*final (state)),
        final (state).won_cards == old(state).won_cards,
        match r {
            Err(e) => {
                &&& e == IllegalMove::PlayedCardNotInHand
                &&& !old(state).hand@.contains(card_to_place)
                &&& final (state).hand@ == old(state).hand@
                &&& final (state).draw_pile@ == old(state).draw_pile@
            },
            Ok(board) => {
                &&& old(state).hand@.contains(card_to_place)
                &&& board.wf()
                &&& board.spec_fields().len() == 1
                &&& board.spec_fields()[0].0 == 0 && board.spec_fields()[0].1 == 0
                &&& board.spec_fields()[0].2.spec_top_card() == Some(card_to_place)
                &&& board.spec_fields()[0].2.spec_hidden().is_empty()
                &&& forall|s: int|
                    0 <= s < 5 && old(state).hand@[s] != card_to_place ==> #[trigger] final (state).hand@[s] == old(state).hand@[s]
                &&& final (state).draw_pile@.len() <= old(state).draw_pile@.len()
                &&& final (state).draw_pile@ == old(state).draw_pile@.take(
                    final (state).draw_pile@.len() as int,
                )
                &&& forall|s: int|
                    0 <= s < 5 && old(state).hand@[s] == card_to_place
                        ==> old(state).draw_pile@.contains(#[trigger] final (state).hand@[s])
            },
        },
{
    let mut card_found = false;
    let mut idx: usize = 0;
    while idx < 5
        invariant
            player_state_wf(*state),
            state.draw_pile@.len() >= 5 - idx,
            state.draw_pile@.len() <= old(state).draw_pile@.len(),
            state.won_cards == old(state).won_cards,
            idx <= 5,
            card_found == exists|s: int|
                0 <= s < idx && old(state).hand@[s] == card_to_place,
            forall|s: int|
                idx <= s < 5 ==> #[trigger] state.hand@[s] == old(state).hand@[s],
            forall|s: int|
                0 <= s < idx && old(state).hand@[s] != card_to_place ==> #[trigger] state.hand@[s]
                    == old(state).hand@[s],
            forall|s: int|
                0 <= s < idx && old(state).hand@[s] == card_to_place ==> old(
                    state,
                ).draw_pile@.contains(#[trigger] state.hand@[s]),
            forall|k: int|
                0 <= k < state.draw_pile@.len() ==> #[trigger] state.draw_pile@[k] == old(
                    state,
                ).draw_pile@[k],
            !card_found ==> state.draw_pile@ == old(state).draw_pile@,
        decreases 5 - idx,
    {
        if state.hand[idx] == card_to_place {
            let ghost plen = state.draw_pile@.len();
            let next_card = state.draw_pile.pop().unwrap();
            proof {
                assert(next_card == old(state).draw_pile@[plen - 1]);
                assert(old(state).draw_pile@.contains(next_card));
            }
            state.hand.set(idx, next_card);
            card_found = true;
        }
        idx = idx + 1;
    }
    if !card_found {
        proof {
            if old(state).hand@.contains(card_to_place) {
                let s = choose|s: int|
                    0 <= s < old(state).hand@.len() && old(state).hand@[s] == card_to_place;
                assert(false);
            }
            assert(state.hand@ =~= old(state).hand@);
            assert(state.draw_pile@ =~= old(state).draw_pile@);
            assert(state.draw_pile@ =~= old(state).draw_pile@.take(
                state.draw_pile@.len() as int,
            ));
        }
        Err(IllegalMove::PlayedCardNotInHand)
    } else {
        let mut fields: Vec<Field> = Vec::new();
        fields.push(
            Field { i: 0, j: 0, top_card: Some(card_to_place), hidden_cards: Vec::new() },
        );
        let board = Board::new(&fields);
        proof {
            let s = choose|s: int| 0 <= s < 5 && #[trigger] old(state).hand@[s] == card_to_place;
            assert(old(state).hand@.contains(card_to_place));
            assert(board.spec_fields()[0].2.spec_hidden() =~= Set::<Card>::empty());
            assert(state.draw_pile@ =~= old(state).draw_pile@.take(
                state.draw_pile@.len() as int,
            ));
        }
        Ok(board)
    }
}

/// Plays a whole turn: an empty response skips the turn (allowed only
/// when no hand card is placeable), otherwise each card must be in the
/// player's hand and legally placeable in sequence, a non-final card
/// must be a combo, and a final combo must be unavoidable. Won cards are
/// recorded and the hand is refilled from the draw pile.
pub fn execute_turn(state: &mut PlayerState, board: &mut Board, action: PlayTurnResponse) -> (r:
    Result<TurnOutcome, IllegalMove>)
    requires
        player_state_wf(*old(state)),
        old(board).wf(),
    ensures
        final (board).wf(),
        r matches Ok(TurnOutcome::Skipped) ==> {
            &&& action.0@.len() == 0
            &&& !spec_some_card_placeable(*old(board), old(state).hand@)
            &&& *final (board) == *old(board)
            &&& *final (state) == *old(state)
        },
        r matches Ok(TurnOutcome::Normal { cards_won_this_turn }) ==> {
            &&& 1 <= action.0@.len() <= 5
            &&& player_state_wf(*final (state))
            &&& final (state).won_cards@ == old(state).won_cards@.union(cards_won_this_turn@)
        },
        r matches Ok(TurnOutcome::GameEnded) ==> 1 <= action.0@.len() <= 5,
        r matches Err(IllegalMove::PlayedZeroCards) ==> {
            &&& action.0@.len() == 0
            &&& spec_some_card_placeable(*old(board), old(state).hand@)
            &&& *final (board) == *old(board)
            &&& *final (state) == *old(state)
        },
        r matches Err(IllegalMove::PlayedMoreThanFiveCards) ==> {
            &&& action.0@.len() > 5
            &&& *final (board) == *old(board)
            &&& *final (state) == *old(state)
        },
        r matches Err(IllegalMove::PlayedCardNotInHand) ==> {
            &&& 1 <= action.0@.len() <= 5
            &&& exists|k: int|
                #![trigger action.0@[k]]
                0 <= k < action.0@.len() && !spec_hand_after(
                    old(state).hand@.to_set(),
                    action.0@,
                    k,
                ).contains(action.0@[k].card) && (forall|x: int|
                    0 <= x < k ==> spec_hand_after(
                        old(state).hand@.to_set(),
                        action.0@,
                        x,
                    ).contains(#[trigger] action.0@[x].card))
        },
        r matches Err(IllegalMove::IllegalCardPlayed { card_idx, card, err }) ==> {
            &&& 0 <= card_idx < action.0@.len()
            &&& card == action.0@[card_idx as int].card
            &&& forall|x: int|
                0 <= x <= card_idx ==> spec_hand_after(
                    old(state).hand@.to_set(),
                    action.0@,
                    x,
                ).contains(#[trigger] action.0@[x].card)
        },
        r matches Err(IllegalMove::PlayedCardAfterEndOfCombo { card_idx }) ==> {
            &&& 0 <= card_idx + 1 < action.0@.len()
            &&& forall|x: int|
                0 <= x <= card_idx ==> spec_hand_after(
                    old(state).hand@.to_set(),
                    action.0@,
                    x,
                ).contains(#[trigger] action.0@[x].card)
        },
        r matches Err(IllegalMove::PrematurelyEndedCombo { card_idx }) ==> {
            &&& card_idx + 1 == action.0@.len()
            &&& forall|x: int|
                0 <= x <= card_idx ==> spec_hand_after(
                    old(state).hand@.to_set(),
                    action.0@,
                    x,
                ).contains(#[trigger] action.0@[x].card)
        },
        r matches Ok(TurnOutcome::Normal { cards_won_this_turn }) ==> forall|x: int|
            0 <= x < action.0@.len() ==> spec_hand_after(
                old(state).hand@.to_set(),
                action.0@,
                x,
            ).contains(#[trigger] action.0@[x].card),
        r matches Ok(TurnOutcome::GameEnded) ==> forall|x: int|
            0 <= x < action.0@.len() ==> spec_hand_after(
                old(state).hand@.to_set(),
                action.0@,
                x,
            ).contains(#[trigger] action.0@[x].card),
{
    let cards_to_place = &action.0;
    let num_cards = cards_to_place.len();
    if num_cards == 0 {
        // The player wants to skip the turn: allowed only when no move
        // is possible.
        let mut h: usize = 0;
        while h < 5
            invariant
                player_state_wf(*state),
                *state == *old(state),
                *board == *old(board),
                board.wf(),
                action.0@.len() == 0,
                h <= 5,
                forall|m: int|
                    0 <= m < h ==> !spec_card_placeable(*board, #[trigger] state.hand@[m]),
            decreases 5 - h,
        {
            if board.possible_to_place_card(state.hand[h]) {
                proof {
                    let hh = h as int;
                    assert(spec_card_placeable(*old(board), old(state).hand@[hh]));
                    assert(spec_some_card_placeable(*old(board), old(state).hand@));
                }
                return Err(IllegalMove::PlayedZeroCards);
            }
            h = h + 1;
        }
        proof {
            if spec_some_card_placeable(*old(board), old(state).hand@) {
                let hh = choose|hh: int|
                    0 <= hh < old(state).hand@.len() && spec_card_placeable(
                        *old(board),
                        #[trigger] old(state).hand@[hh],
                    );
                assert(!spec_card_placeable(*board, state.hand@[hh]));
                assert(false);
            }
        }
        return Ok(TurnOutcome::Skipped);
    }
    if num_cards > 5 {
        return Err(IllegalMove::PlayedMoreThanFiveCards);
    }
    let mut hand = CardsSet::from_cards(&state.hand);
    let mut cards_won_this_turn = CardsSet::new();
    let mut card_idx: usize = 0;
    proof {
        assert(hand@ == spec_hand_after(old(state).hand@.to_set(), action.0@, 0));
    }
    while card_idx < num_cards
        invariant
            1 <= num_cards <= 5,
            num_cards == cards_to_place@.len(),
            cards_to_place@ == action.0@,
            card_idx <= num_cards,
            board.wf(),
            *state == *old(state),
            hand@ == spec_hand_after(old(state).hand@.to_set(), action.0@, card_idx as int),
            forall|x: int|
                0 <= x < card_idx ==> spec_hand_after(
                    old(state).hand@.to_set(),
                    action.0@,
                    x,
                ).contains(#[trigger] action.0@[x].card),
        decreases num_cards - card_idx,
    {
        let ctp = cards_to_place[card_idx];
        if !hand.contains(ctp.card) {
            proof {
                let k = card_idx as int;
                assert(action.0@[k] == ctp);
                assert(!spec_hand_after(old(state).hand@.to_set(), action.0@, k).contains(
                    action.0@[k].card,
                ));
            }
            return Err(IllegalMove::PlayedCardNotInHand);
        }
        proof {
            lemma_hand_after_step(old(state).hand@.to_set(), action.0@, card_idx as int);
            assert(spec_hand_after(old(state).hand@.to_set(), action.0@, card_idx as int).contains(
                action.0@[card_idx as int].card,
            ));
        }
        hand = hand.remove(ctp.card);
        let calculation = match board.calculate(ctp) {
            Ok(c) => c,
            Err(err) => {
                return Err(
                    IllegalMove::IllegalCardPlayed { card_idx, card: ctp.card, err },
                );
            },
        };
        let combo = calculation.combo;
        let cards_won = calculation.cards_won;
        if !combo && card_idx + 1 < num_cards {
            return Err(IllegalMove::PlayedCardAfterEndOfCombo { card_idx });
        }
        proof {
            assert(!calculation.diff.won.spec_contains(ctp.i as int, ctp.j as int));
        }
        *board = calculation.execute(board);
        if combo && card_idx + 1 == num_cards {
            // The combo obliges another placement: ending here is only
            // legal when no remaining hand card is placeable.
            let remaining = hand.to_vec();
            let mut h: usize = 0;
            while h < remaining.len()
                invariant
                    board.wf(),
                    h <= remaining@.len(),
                    card_idx + 1 == num_cards,
                    num_cards == action.0@.len(),
                    1 <= num_cards <= 5,
                    forall|x: int|
                        0 <= x <= card_idx ==> spec_hand_after(
                            old(state).hand@.to_set(),
                            action.0@,
                            x,
                        ).contains(#[trigger] action.0@[x].card),
                decreases remaining@.len() - h,
            {
                if board.possible_to_place_card(remaining[h]) {
                    return Err(IllegalMove::PrematurelyEndedCombo { card_idx });
                }
                h = h + 1;
            }
        }
        cards_won_this_turn = cards_won_this_turn.union(cards_won);
        card_idx = card_idx + 1;
    }
    // Draw cards until the hand is full again.
    let remaining = hand.to_vec();
    let mut new_hand: Vec<Card> = Vec::new();
    let mut t: usize = 0;
    while t < remaining.len() && new_hand.len() < 5
        invariant
            board.wf(),
            t <= remaining@.len(),
            new_hand@.len() <= 5,
            *state == *old(state),
            num_cards == action.0@.len(),
            1 <= num_cards <= 5,
            forall|x: int|
                0 <= x < num_cards ==> spec_hand_after(
                    old(state).hand@.to_set(),
                    action.0@,
                    x,
                ).contains(#[trigger] action.0@[x].card),
        decreases remaining@.len() - t,
    {
        new_hand.push(remaining[t]);
        t = t + 1;
    }
    while new_hand.len() < 5
        invariant
            board.wf(),
            new_hand@.len() <= 5,
            state.won_cards == old(state).won_cards,
            num_cards == action.0@.len(),
            1 <= num_cards <= 5,
            forall|x: int|
                0 <= x < num_cards ==> spec_hand_after(
                    old(state).hand@.to_set(),
                    action.0@,
                    x,
                ).contains(#[trigger] action.0@[x].card),
        decreases 5 - new_hand@.len(),
    {
        match state.draw_pile.pop() {
            Some(card) => {
                new_hand.push(card);
            },
            None => {
                return Ok(TurnOutcome::GameEnded);
            },
        }
    }
    state.hand = new_hand;
    state.won_cards = state.won_cards.union(cards_won_this_turn);
    proof {
        assert(player_state_wf(*state));
    }
    Ok(TurnOutcome::Normal { cards_won_this_turn })
}

} // verus!
