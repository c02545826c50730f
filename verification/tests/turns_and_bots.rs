use gomori::board::Board;
use gomori::card_counting::CardCounter;
use gomori::cards::Card;
use gomori::cards::Rank;
use gomori::cards::Suit;
use gomori::cards_set::CardsSet;
use gomori::errors::IllegalMove;
use gomori::game_state::possible_card_placements;
use gomori::game_state::GameState;
use gomori::player_state::PlayerState;
use gomori::protocol_types::CardToPlace;
use gomori::protocol_types::Color;
use gomori::protocol_types::Field;
use gomori::protocol_types::PlayTurnResponse;
use gomori::turn::execute_first_turn;
use gomori::turn::execute_turn;
use gomori::turn::TurnOutcome;
use rand::SeedableRng;

fn card(rank: Rank, suit: Suit) -> Card {
    Card { suit, rank }
}

fn face_up(i: i8, j: i8, c: Card) -> Field {
    Field { i, j, top_card: Some(c), hidden_cards: vec![] }
}

#[test]
fn deal_and_first_turn() {
    let mut rng = rand::rngs::StdRng::seed_from_u64(7);
    let mut state = PlayerState::new(Color::Red, &mut rng);
    assert_eq!(state.hand.len(), 5);
    assert_eq!(state.draw_pile.len(), 21);
    for c in state.hand.iter().chain(state.draw_pile.iter()) {
        assert!(c.suit == Suit::Diamond || c.suit == Suit::Heart);
    }
    let first = state.hand[0];
    let board = execute_first_turn(&mut state, first).unwrap();
    assert_eq!(state.hand.len(), 5);
    assert_eq!(state.draw_pile.len(), 20);
    let fields = board.to_fields_vec();
    assert_eq!(fields.len(), 1);
    assert_eq!((fields[0].i, fields[0].j), (0, 0));
    assert_eq!(fields[0].top_card, Some(first));
    // A card not in the hand is rejected and changes nothing.
    let mut state2 = PlayerState {
        draw_pile: vec![card(Rank::Two, Suit::Heart); 5],
        hand: vec![card(Rank::Seven, Suit::Heart); 5],
        won_cards: CardsSet::new(),
    };
    let err = execute_first_turn(&mut state2, card(Rank::Nine, Suit::Heart)).unwrap_err();
    assert!(matches!(err, IllegalMove::PlayedCardNotInHand));
}

#[test]
fn turn_executor_rules() {
    let mut board = Board::new(&vec![face_up(0, 0, card(Rank::Seven, Suit::Heart))]);
    let mut state = PlayerState {
        draw_pile: vec![
            card(Rank::Two, Suit::Diamond),
            card(Rank::Three, Suit::Diamond),
            card(Rank::Four, Suit::Diamond),
        ],
        hand: vec![
            card(Rank::Seven, Suit::Diamond),
            card(Rank::Nine, Suit::Heart),
            card(Rank::Ten, Suit::Heart),
            card(Rank::Jack, Suit::Heart),
            card(Rank::Queen, Suit::Heart),
        ],
        won_cards: CardsSet::new(),
    };
    // Skipping with placeable cards in hand is rejected.
    let err = execute_turn(&mut state, &mut board, PlayTurnResponse(vec![])).unwrap_err();
    assert!(matches!(err, IllegalMove::PlayedZeroCards));
    // Playing a card that is not in the hand is rejected.
    let err = execute_turn(
        &mut state,
        &mut board,
        PlayTurnResponse(vec![CardToPlace {
            card: card(Rank::Two, Suit::Spade),
            i: 1,
            j: 0,
            target_field_for_king_ability: None,
        }]),
    )
    .unwrap_err();
    assert!(matches!(err, IllegalMove::PlayedCardNotInHand));
    // A single non-combo placement ends the turn and refills the hand.
    let outcome = execute_turn(
        &mut state,
        &mut board,
        PlayTurnResponse(vec![CardToPlace {
            card: card(Rank::Nine, Suit::Heart),
            i: 1,
            j: 0,
            target_field_for_king_ability: None,
        }]),
    )
    .unwrap();
    match outcome {
        TurnOutcome::Normal { cards_won_this_turn } => {
            assert!(cards_won_this_turn.is_empty());
        }
        _ => panic!("expected a normal turn"),
    }
    assert_eq!(state.hand.len(), 5);
    assert_eq!(state.draw_pile.len(), 2);
    assert!(board.get(1, 0).is_some());
    // Playing another card after a non-combo placement is rejected.
    let first_card = state.hand[0];
    let second_card = state.hand[1];
    let err = execute_turn(
        &mut state,
        &mut board,
        PlayTurnResponse(vec![
            CardToPlace { card: first_card, i: 2, j: 0, target_field_for_king_ability: None },
            CardToPlace { card: second_card, i: 3, j: 0, target_field_for_king_ability: None },
        ]),
    )
    .unwrap_err();
    assert!(matches!(err, IllegalMove::PlayedCardAfterEndOfCombo { card_idx: 0 }));
}

#[test]
fn game_state_search_steps() {
    let fields = vec![
        face_up(0, 0, card(Rank::Seven, Suit::Heart)),
        face_up(0, 1, card(Rank::Nine, Suit::Club)),
    ];
    let hand = [
        card(Rank::Seven, Suit::Diamond),
        card(Rank::Nine, Suit::Heart),
        card(Rank::Ten, Suit::Heart),
        card(Rank::Jack, Suit::Heart),
        card(Rank::Queen, Suit::Heart),
    ];
    let state = GameState::initial(hand, fields);
    assert!(!state.is_terminal());
    let actions = state.possible_actions();
    assert!(!actions.is_empty());
    // Applying a non-combo action ends the turn: the hand empties.
    let simple = actions
        .iter()
        .find(|a| state.board.get(a.i, a.j).is_none())
        .copied()
        .expect("some action targets an empty cell");
    let next = state.apply_action(simple);
    assert!(next.is_terminal());
    assert_eq!(next.score_delta, 0);
    // Applying a combo action keeps the rest of the hand.
    let combo = actions
        .iter()
        .find(|a| state.board.get(a.i, a.j).is_some())
        .copied()
        .expect("some action covers a cell");
    let next = state.apply_action(combo);
    assert!(!next.is_terminal());
}

#[test]
fn placements_enumeration() {
    let board = Board::new(&vec![face_up(0, 0, card(Rank::Seven, Suit::Heart))]);
    let cards = CardsSet::new()
        .insert(card(Rank::Seven, Suit::Diamond))
        .insert(card(Rank::Two, Suit::Spade));
    let moves = possible_card_placements(&board, &cards);
    // Every reported move names a held card at an in-bounds spot.
    for &(i, j, c) in &moves {
        assert!(cards.contains(c));
        assert!(board.is_in_bounds(i, j));
    }
    // The seven can cover the seven of hearts, the two cannot.
    assert!(moves.contains(&(0, 0, card(Rank::Seven, Suit::Diamond))));
    assert!(!moves.contains(&(0, 0, card(Rank::Two, Suit::Spade))));
    // Both cards can go to any empty in-bounds cell.
    assert!(moves.contains(&(1, 1, card(Rank::Two, Suit::Spade))));
}

#[test]
fn card_counter_bookkeeping() {
    let mut counter = CardCounter::new(Color::Black);
    assert_eq!(counter.draw_pile.len(), 26);
    assert_eq!(counter.available_cards_opponent.len(), 26);
    counter.note_own_hand(&vec![card(Rank::Two, Suit::Spade), card(Rank::Nine, Suit::Club)]);
    assert_eq!(counter.draw_pile.len(), 24);
    counter.note_opponent_win(CardsSet::new().insert(card(Rank::Two, Suit::Heart)));
    assert_eq!(counter.cards_won_opponent.len(), 1);
    assert_eq!(counter.available_cards_opponent.len(), 25);
    counter.note_field(&Field {
        i: 0,
        j: 0,
        top_card: Some(card(Rank::Three, Suit::Diamond)),
        hidden_cards: vec![card(Rank::Four, Suit::Diamond)],
    });
    assert_eq!(counter.available_cards_opponent.len(), 23);
    counter.note_own_win(CardsSet::new().insert(card(Rank::Five, Suit::Club)));
    assert!(counter.cards_won_self.contains(card(Rank::Five, Suit::Club)));
    let idle = CardCounter::default();
    assert!(idle.draw_pile.is_empty());
}
