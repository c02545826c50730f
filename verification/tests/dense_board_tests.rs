use gomori::cards::Card;
use gomori::errors::IllegalCardPlayed;
use gomori::cards::Rank;
use gomori::cards::Suit;
use gomori::cards_set::CardsSet;
use gomori::dense::DenseBoard;
use gomori::protocol_types::CardToPlace;
use gomori::protocol_types::Field;

fn card(rank: Rank, suit: Suit) -> Card {
    Card { suit, rank }
}

fn face_up(i: i8, j: i8, c: Card) -> Field {
    Field { i, j, top_card: Some(c), hidden_cards: vec![] }
}

#[test]
fn dense_play_card_horizontal() {
    let board = DenseBoard::new(&vec![
        face_up(-1, -3, card(Rank::Ace, Suit::Spade)),
        face_up(-1, -2, card(Rank::Six, Suit::Diamond)),
        face_up(-1, -1, card(Rank::Five, Suit::Diamond)),
        face_up(-1, 0, card(Rank::Four, Suit::Diamond)),
    ]);
    let played = card(Rank::Ace, Suit::Diamond);
    let plan = board
        .calculate(CardToPlace {
            i: -1,
            j: -3,
            card: played,
            target_field_for_king_ability: None,
        })
        .unwrap();
    assert_eq!(plan.diff.turned_face_down, 0);
    assert_eq!(
        plan.cards_won,
        CardsSet::from_cards(&vec![
            card(Rank::Four, Suit::Diamond),
            card(Rank::Five, Suit::Diamond),
            card(Rank::Six, Suit::Diamond),
        ])
    );
}

#[test]
fn dense_play_card_antidiag() {
    let board = DenseBoard::new(&vec![
        face_up(-1, 0, card(Rank::Four, Suit::Diamond)),
        face_up(0, -1, card(Rank::Five, Suit::Diamond)),
        face_up(1, -2, card(Rank::Six, Suit::Diamond)),
        face_up(2, -3, card(Rank::Ace, Suit::Spade)),
    ]);
    let played = card(Rank::Ace, Suit::Diamond);
    let plan = board
        .calculate(CardToPlace {
            i: 2,
            j: -3,
            card: played,
            target_field_for_king_ability: None,
        })
        .unwrap();
    assert_eq!(plan.diff.turned_face_down, 0);
    assert!(plan.diff.gathered != 0);
}

#[test]
fn dense_jack_flip_and_king_errors() {
    let board = DenseBoard::new(&vec![
        face_up(0, 0, card(Rank::Seven, Suit::Heart)),
        face_up(0, 1, card(Rank::Nine, Suit::Club)),
        face_up(1, 0, card(Rank::Two, Suit::Diamond)),
    ]);
    // A jack played onto an occupied cell flips the orthogonal
    // neighbours face-down.
    let jack = card(Rank::Jack, Suit::Heart);
    let plan = board
        .calculate(CardToPlace { i: 0, j: 0, card: jack, target_field_for_king_ability: None })
        .unwrap();
    assert!(plan.combo);
    let next = plan.execute(&board);
    assert_eq!(next.get(0, 1).unwrap().top_card(), None);
    assert_eq!(next.get(1, 0).unwrap().top_card(), None);
    assert_eq!(next.get(0, 0).unwrap().top_card(), Some(jack));
    // A king without a target is rejected.
    let king = card(Rank::King, Suit::Heart);
    let err = board
        .calculate(CardToPlace { i: 0, j: 0, card: king, target_field_for_king_ability: None })
        .map(|_| ())
        .unwrap_err();
    assert_eq!(err, IllegalCardPlayed::NoTargetForKingAbility);
    // Every compatible in-grid slot is enumerated.
    let locations = board.possible_locations_for_card(card(Rank::Ace, Suit::Spade));
    assert!(locations.contains(&(0, 0)));
    assert!(locations.contains(&(2, 2)));
}

#[test]
fn repro() {
    let fields = vec![
        Field { i: -2, j: 0, top_card: Some(card(Rank::Jack, Suit::Diamond)), hidden_cards: vec![] },
        Field {
            i: -2,
            j: 3,
            top_card: Some(card(Rank::Ten, Suit::Club)),
            hidden_cards: vec![
                card(Rank::Three, Suit::Spade),
                card(Rank::Ten, Suit::Spade),
                card(Rank::King, Suit::Spade),
                card(Rank::King, Suit::Club),
            ],
        },
        Field {
            i: -1,
            j: 1,
            top_card: Some(card(Rank::Four, Suit::Club)),
            hidden_cards: vec![
                card(Rank::Eight, Suit::Diamond),
                card(Rank::Eight, Suit::Spade),
                card(Rank::Eight, Suit::Club),
            ],
        },
        Field {
            i: 0,
            j: 0,
            top_card: Some(card(Rank::Queen, Suit::Spade)),
            hidden_cards: vec![
                card(Rank::Seven, Suit::Spade),
                card(Rank::Seven, Suit::Club),
                card(Rank::Eight, Suit::Heart),
            ],
        },
        Field {
            i: 0,
            j: 2,
            top_card: Some(card(Rank::Queen, Suit::Club)),
            hidden_cards: vec![card(Rank::Queen, Suit::Diamond)],
        },
        Field {
            i: 1,
            j: 3,
            top_card: Some(card(Rank::Nine, Suit::Club)),
            hidden_cards: vec![card(Rank::Four, Suit::Spade), card(Rank::Ace, Suit::Club)],
        },
    ];
    let board = DenseBoard::new(&fields);
    let ctp = CardToPlace {
        card: card(Rank::Jack, Suit::Club),
        i: -2,
        j: 0,
        target_field_for_king_ability: None,
    };
    let calc = board.calculate(ctp).unwrap();
    let board = calc.execute(&board);

    assert_eq!(
        board.get(-2, 0).unwrap().top_card(),
        Some(card(Rank::Jack, Suit::Club))
    );
}
