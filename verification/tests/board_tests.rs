use gomori::board::Board;
use gomori::cards::Card;
use gomori::cards::Rank;
use gomori::cards::Suit;
use gomori::cards_set::CardsSet;
use gomori::errors::IllegalCardPlayed;
use gomori::protocol_types::CardToPlace;
use gomori::protocol_types::Field;

fn card(rank: Rank, suit: Suit) -> Card {
    Card { suit, rank }
}

fn face_up(i: i8, j: i8, c: Card) -> Field {
    Field { i, j, top_card: Some(c), hidden_cards: vec![] }
}

fn expect_err(
    r: Result<gomori::board::PlayCardCalculation, IllegalCardPlayed>,
) -> IllegalCardPlayed {
    match r {
        Ok(_) => panic!("expected the placement to be rejected"),
        Err(e) => e,
    }
}

#[test]
fn play_card_horizontal() {
    let board = Board::new(&vec![
        face_up(-1, -3, card(Rank::Ace, Suit::Spade)),
        face_up(-1, -2, card(Rank::Six, Suit::Diamond)),
        face_up(-1, -1, card(Rank::Five, Suit::Diamond)),
        face_up(-1, 0, card(Rank::Four, Suit::Diamond)),
    ]);
    let played = card(Rank::Ace, Suit::Diamond);
    let plan = board
        .calculate(CardToPlace {
            i: -1,
            j: -3,
            card: played,
            target_field_for_king_ability: None,
        })
        .unwrap();
    assert!(plan.diff.flipped.is_empty());
    assert_eq!(
        plan.cards_won,
        CardsSet::from_cards(&vec![
            card(Rank::Four, Suit::Diamond),
            card(Rank::Five, Suit::Diamond),
            card(Rank::Six, Suit::Diamond),
        ])
    );
}

#[test]
fn play_card_antidiag() {
    let board = Board::new(&vec![
        face_up(-1, 0, card(Rank::Four, Suit::Diamond)),
        face_up(0, -1, card(Rank::Five, Suit::Diamond)),
        face_up(1, -2, card(Rank::Six, Suit::Diamond)),
        face_up(2, -3, card(Rank::Ace, Suit::Spade)),
    ]);
    // Already sorted by (i, j): each i appears once, ascending.
    let played = card(Rank::Ace, Suit::Diamond);
    let plan = board
        .calculate(CardToPlace {
            i: 2,
            j: -3,
            card: played,
            target_field_for_king_ability: None,
        })
        .unwrap();
    assert!(plan.diff.flipped.is_empty());
    assert!(!plan.diff.won.is_empty());
}

#[test]
fn fields_roundtrip() {
    // A board built from a sorted, well-formed field list hands the
    // very same list back.
    let fields = vec![
        Field {
            i: -1,
            j: 2,
            top_card: None,
            hidden_cards: vec![card(Rank::Two, Suit::Heart), card(Rank::Nine, Suit::Club)],
        },
        face_up(0, 0, card(Rank::Four, Suit::Diamond)),
        Field {
            i: 0,
            j: 1,
            top_card: Some(card(Rank::Jack, Suit::Spade)),
            hidden_cards: vec![card(Rank::Three, Suit::Diamond)],
        },
    ];
    let board = Board::new(&fields);
    let out = board.to_fields_vec();
    assert_eq!(out.len(), fields.len());
    for (a, b) in out.iter().zip(fields.iter()) {
        assert_eq!(a.i, b.i);
        assert_eq!(a.j, b.j);
        assert_eq!(a.top_card, b.top_card);
        assert_eq!(a.hidden_cards, b.hidden_cards);
    }
}

#[test]
fn king_ability_errors() {
    let board = Board::new(&vec![
        face_up(0, 0, card(Rank::Seven, Suit::Heart)),
        Field { i: 0, j: 1, top_card: None, hidden_cards: vec![card(Rank::Two, Suit::Spade)] },
        face_up(1, 0, card(Rank::Nine, Suit::Club)),
    ]);
    let king = card(Rank::King, Suit::Heart);
    // Playing a king onto an occupied, compatible cell with no target.
    let err = expect_err(board
        .calculate(CardToPlace { i: 0, j: 0, card: king, target_field_for_king_ability: None }));
    assert_eq!(err, IllegalCardPlayed::NoTargetForKingAbility);
    // A target whose cell does not exist.
    let err = expect_err(board
        .calculate(CardToPlace {
            i: 0,
            j: 0,
            card: king,
            target_field_for_king_ability: Some((2, 2)),
        }));
    assert_eq!(err, IllegalCardPlayed::TargetForKingAbilityDoesNotExist { tgt_i: 2, tgt_j: 2 });
    // An already face-down target other than the destination.
    let err = expect_err(board
        .calculate(CardToPlace {
            i: 0,
            j: 0,
            card: king,
            target_field_for_king_ability: Some((0, 1)),
        }));
    assert_eq!(err, IllegalCardPlayed::TargetForKingAbilityIsFaceDown { tgt_i: 0, tgt_j: 1 });
    // A face-up target resolves, flips it, and the placement is a combo.
    let plan = board
        .calculate(CardToPlace {
            i: 0,
            j: 0,
            card: king,
            target_field_for_king_ability: Some((1, 0)),
        })
        .unwrap();
    assert!(plan.combo);
    assert!(plan.diff.flipped.contains(1, 0));
}

#[test]
fn out_of_bounds_and_incompatible() {
    let board = Board::new(&vec![
        face_up(0, 0, card(Rank::Seven, Suit::Heart)),
        face_up(0, 3, card(Rank::Nine, Suit::Club)),
    ]);
    let two_spades = card(Rank::Two, Suit::Spade);
    // The 4x4 box is pinned in the j direction: j = 4 would stretch it.
    let err = expect_err(board
        .calculate(CardToPlace { i: 0, j: 4, card: two_spades, target_field_for_king_ability: None }));
    assert_eq!(err, IllegalCardPlayed::OutOfBounds);
    // A two cannot cover a seven.
    let err = expect_err(board
        .calculate(CardToPlace { i: 0, j: 0, card: two_spades, target_field_for_king_ability: None }));
    assert_eq!(
        err,
        IllegalCardPlayed::IncompatibleCard { existing_card: card(Rank::Seven, Suit::Heart) }
    );
}

#[test]
fn locations_and_placement_consistency() {
    // Wherever locations_for_card reports a destination, calculate with
    // no king target either succeeds or asks for a king target; and the
    // cheap placement check agrees with the full enumeration.
    let board = Board::new(&vec![
        face_up(0, 0, card(Rank::Seven, Suit::Heart)),
        face_up(0, 1, card(Rank::Nine, Suit::Club)),
        face_up(1, 1, card(Rank::King, Suit::Diamond)),
    ]);
    for played in [
        card(Rank::Seven, Suit::Spade),
        card(Rank::King, Suit::Heart),
        card(Rank::Ace, Suit::Club),
        card(Rank::Two, Suit::Diamond),
    ] {
        let locations = board.locations_for_card(played).to_vec();
        for &(i, j) in &locations {
            match board.calculate(CardToPlace {
                i,
                j,
                card: played,
                target_field_for_king_ability: None,
            }) {
                Ok(_) => {}
                Err(IllegalCardPlayed::NoTargetForKingAbility) => {}
                Err(other) => panic!("unexpected error at ({}, {}): {:?}", i, j, other),
            }
        }
        assert_eq!(!locations.is_empty(), board.possible_to_place_card(played));
    }
}

#[test]
fn full_board_blocks_incompatible_card() {
    // Sixteen occupied cells, every face-up card a three of spades: a
    // five of hearts has nowhere to go, an ace still goes anywhere.
    let mut fields = Vec::new();
    for i in 0..4i8 {
        for j in 0..4i8 {
            fields.push(face_up(i, j, card(Rank::Three, Suit::Spade)));
        }
    }
    let board = Board::new(&fields);
    let five_hearts = card(Rank::Five, Suit::Heart);
    assert!(!board.possible_to_place_card(five_hearts));
    assert!(board.locations_for_card(five_hearts).to_vec().is_empty());
    let ace_hearts = card(Rank::Ace, Suit::Heart);
    assert!(board.possible_to_place_card(ace_hearts));
    assert_eq!(board.locations_for_card(ace_hearts).to_vec().len(), 16);
}

#[test]
fn execute_rebuilds_consistent_board() {
    // After calculate and execute, the resulting board is recomputable
    // from its field list alone.
    let board = Board::new(&vec![
        face_up(-1, -3, card(Rank::Ace, Suit::Spade)),
        face_up(-1, -2, card(Rank::Six, Suit::Diamond)),
        face_up(-1, -1, card(Rank::Five, Suit::Diamond)),
        face_up(-1, 0, card(Rank::Four, Suit::Diamond)),
    ]);
    let played = card(Rank::Ace, Suit::Diamond);
    let plan = board
        .calculate(CardToPlace {
            i: -1,
            j: -3,
            card: played,
            target_field_for_king_ability: None,
        })
        .unwrap();
    let next = plan.execute(&board);
    // The three captured diamonds are gone; the ace covers the spade.
    let fields = next.to_fields_vec();
    assert_eq!(fields.len(), 1);
    assert_eq!(fields[0].i, -1);
    assert_eq!(fields[0].j, -3);
    assert_eq!(fields[0].top_card, Some(played));
    assert_eq!(fields[0].hidden_cards, vec![card(Rank::Ace, Suit::Spade)]);
    // Rebuilding from the transmitted fields gives the same board again.
    let rebuilt = Board::new(&fields);
    let fields2 = rebuilt.to_fields_vec();
    assert_eq!(fields2.len(), fields.len());
    for (a, b) in fields2.iter().zip(fields.iter()) {
        assert_eq!(a.i, b.i);
        assert_eq!(a.j, b.j);
        assert_eq!(a.top_card, b.top_card);
        assert_eq!(a.hidden_cards, b.hidden_cards);
    }
    assert_eq!(next.bbox(), rebuilt.bbox());
}

#[test]
fn jack_flips_orthogonal_neighbours() {
    let board = Board::new(&vec![
        face_up(0, 0, card(Rank::Seven, Suit::Heart)),
        face_up(0, 1, card(Rank::Nine, Suit::Club)),
        face_up(1, 0, card(Rank::Two, Suit::Diamond)),
    ]);
    let jack = card(Rank::Jack, Suit::Heart);
    let plan = board
        .calculate(CardToPlace { i: 0, j: 0, card: jack, target_field_for_king_ability: None })
        .unwrap();
    assert!(plan.combo);
    assert!(plan.diff.flipped.contains(0, 1));
    assert!(plan.diff.flipped.contains(1, 0));
    assert!(!plan.diff.flipped.contains(0, 0));
    let next = plan.execute(&board);
    assert_eq!(next.get(0, 1).unwrap().top_card(), None);
    assert_eq!(next.get(1, 0).unwrap().top_card(), None);
    assert_eq!(next.get(0, 0).unwrap().top_card(), Some(jack));
}
