use gomori::cards::Card;
use gomori::cards::Rank;
use gomori::cards::Suit;
use gomori::compact_field::CompactField;
use gomori::protocol_types::Field;

// Card with the lowest index.
const CARD_1: Card = Card { rank: Rank::Two, suit: Suit::Diamond };

// Card with the highest index.
const CARD_2: Card = Card { rank: Rank::Ace, suit: Suit::Club };

// Some other card.
const CARD_3: Card = Card { rank: Rank::Queen, suit: Suit::Heart };

#[test]
fn place_cards() {
    let mut field = CompactField::new();
    field = field.place_card(CARD_1);
    assert_eq!(field.hidden_cards().to_vec(), vec![]);
    assert_eq!(field.top_card(), Some(CARD_1));
    field = field.place_card(CARD_2);
    assert_eq!(field.hidden_cards().to_vec(), vec![CARD_1]);
    assert_eq!(field.top_card(), Some(CARD_2));
    field = field.place_card(CARD_3);
    assert_eq!(field.hidden_cards().to_vec(), vec![CARD_1, CARD_2]);
    assert_eq!(field.top_card(), Some(CARD_3));
}

#[test]
fn turn_face_down_moves_top_into_hidden() {
    let field = CompactField::new().place_card(CARD_1).place_card(CARD_3);
    let down = field.turn_face_down();
    assert_eq!(down.top_card(), None);
    assert_eq!(down.hidden_cards().to_vec(), vec![CARD_1, CARD_3]);
    // Turning an already face-down field again changes nothing.
    let down2 = down.turn_face_down();
    assert_eq!(down2.top_card(), None);
    assert_eq!(down2.hidden_cards().to_vec(), vec![CARD_1, CARD_3]);
}

#[test]
fn field_record_roundtrip() {
    let field = CompactField::from_field(&Field {
        i: 3,
        j: -2,
        top_card: Some(CARD_3),
        hidden_cards: vec![CARD_1, CARD_2],
    });
    assert_eq!(field.top_card(), Some(CARD_3));
    assert_eq!(field.num_hidden_cards(), 2);
    assert_eq!(field.all_cards().len(), 3);
    assert!(!field.is_empty());
    let back = field.into_field(3, -2);
    assert_eq!(back.i, 3);
    assert_eq!(back.j, -2);
    assert_eq!(back.top_card, Some(CARD_3));
    assert_eq!(back.hidden_cards, vec![CARD_1, CARD_2]);
    assert!(CompactField::new().is_empty());
}

#[test]
fn can_place_follows_top_card() {
    let empty = CompactField::new();
    assert!(empty.can_place_card(CARD_1));
    let with_queen = empty.place_card(CARD_3);
    // A queen of hearts accepts another queen or a heart face card.
    assert!(with_queen.can_place_card(Card { rank: Rank::Queen, suit: Suit::Spade }));
    assert!(with_queen.can_place_card(Card { rank: Rank::King, suit: Suit::Heart }));
    assert!(!with_queen.can_place_card(CARD_1));
}
