use gomori::cards::Card;
use gomori::cards::Rank;
use gomori::cards::Suit;
use gomori::cards_set::black_cards;
use gomori::cards_set::black_cards_set;
use gomori::cards_set::red_cards;
use gomori::cards_set::red_cards_set;
use gomori::cards::CardFromStrErr;
use gomori::cards_set::CardsSet;

fn card(rank: Rank, suit: Suit) -> Card {
    Card { suit, rank }
}

#[test]
fn set_constants() {
    assert_eq!(CardsSet::from_cards(&red_cards()), red_cards_set());
    assert_eq!(CardsSet::from_cards(&black_cards()), black_cards_set());
}

#[test]
fn card_index_roundtrip() {
    for idx in 0..52u8 {
        let c = Card::from_index(idx);
        assert_eq!(c.to_index(), idx);
    }
    assert_eq!(card(Rank::Two, Suit::Diamond).to_index(), 0);
    assert_eq!(card(Rank::Ace, Suit::Club).to_index(), 51);
}

#[test]
fn compatibility_rules() {
    let seven_hearts = card(Rank::Seven, Suit::Heart);
    let seven_spades = card(Rank::Seven, Suit::Spade);
    let jack_hearts = card(Rank::Jack, Suit::Heart);
    let jack_spades = card(Rank::Jack, Suit::Spade);
    let ace_clubs = card(Rank::Ace, Suit::Club);
    let two_diamonds = card(Rank::Two, Suit::Diamond);
    // Same rank always works.
    assert!(seven_spades.can_be_placed_on(seven_hearts));
    // An ace works on anything.
    assert!(ace_clubs.can_be_placed_on(two_diamonds));
    // A face card works on its own suit.
    assert!(jack_hearts.can_be_placed_on(seven_hearts));
    assert!(!jack_spades.can_be_placed_on(seven_hearts));
    // A number card needs its rank matched.
    assert!(!two_diamonds.can_be_placed_on(seven_hearts));
}

#[test]
fn parse_card_codes() {
    assert_eq!("T♥".parse::<Card>(), Ok(card(Rank::Ten, Suit::Heart)));
    assert_eq!(Card::parse_code("4♦"), Ok(card(Rank::Four, Suit::Diamond)));
    assert_eq!(Card::parse_code("A♣"), Ok(card(Rank::Ace, Suit::Club)));
    assert_eq!(Card::parse_code("A"), Err(CardFromStrErr::LessThanTwoChars));
    assert_eq!(Card::parse_code("A♣♣"), Err(CardFromStrErr::MoreThanTwoChars));
    assert_eq!(Card::parse_code("X♣"), Err(CardFromStrErr::InvalidRank));
    assert_eq!(Card::parse_code("AX"), Err(CardFromStrErr::InvalidSuit));
    // The ace of spades renders as its Unicode playing-card character.
    assert_eq!(card(Rank::Ace, Suit::Spade).unicode_char(), '\u{1F0A1}');
}

#[test]
fn idempotent_empty_operations() {
    // Inserting a set's own element twice and removing an absent
    // element are no-ops.
    let seven_hearts = card(Rank::Seven, Suit::Heart);
    let two_hearts = card(Rank::Two, Suit::Heart);
    let mut set = CardsSet::new();
    set = set.insert(seven_hearts);
    let once = set;
    set = set.insert(seven_hearts);
    assert_eq!(set, once);
    set = set.insert(two_hearts);
    assert_eq!(set.to_vec(), vec![two_hearts, seven_hearts]);
    assert_eq!(set.remove(card(Rank::Nine, Suit::Club)), set);
}

#[test]
fn set_operations() {
    let a = CardsSet::from_cards(&vec![
        card(Rank::Two, Suit::Heart),
        card(Rank::Seven, Suit::Heart),
    ]);
    let b = CardsSet::from_cards(&vec![
        card(Rank::Seven, Suit::Heart),
        card(Rank::King, Suit::Club),
    ]);
    assert_eq!(a.len(), 2);
    assert!(a.contains(card(Rank::Two, Suit::Heart)));
    assert!(!a.contains(card(Rank::King, Suit::Club)));
    assert_eq!(a.union(b).len(), 3);
    assert_eq!(a.intersection(b).to_vec(), vec![card(Rank::Seven, Suit::Heart)]);
    assert_eq!(a.difference(b).to_vec(), vec![card(Rank::Two, Suit::Heart)]);
    assert_eq!(a.symmetric_difference(b).len(), 2);
    let comp = a.complement();
    assert_eq!(comp.len(), 50);
    assert!(!comp.contains(card(Rank::Two, Suit::Heart)));
    assert!(comp.contains(card(Rank::King, Suit::Club)));
    assert!(CardsSet::new().is_empty());
    assert!(!a.is_empty());
}

#[test]
fn set_iteration_is_ascending() {
    let set = CardsSet::from_cards(&vec![
        card(Rank::Ace, Suit::Club),
        card(Rank::Two, Suit::Diamond),
        card(Rank::Seven, Suit::Spade),
    ]);
    let mut iter = set.iter();
    assert_eq!(iter.next(), Some(card(Rank::Two, Suit::Diamond)));
    assert_eq!(iter.next(), Some(card(Rank::Seven, Suit::Spade)));
    assert_eq!(iter.next(), Some(card(Rank::Ace, Suit::Club)));
    assert_eq!(iter.next(), None);
}
