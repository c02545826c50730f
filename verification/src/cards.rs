//! The card domain types: suits, ranks, cards, and the dense card index.

use vstd::prelude::*;

verus! {

/// The suit of a [card](Card).
#[derive(Copy, Clone, Debug, PartialEq, Eq, Structural)]
pub enum Suit {
    Diamond,
    Heart,
    Spade,
    Club,
}

/// The rank of a [card](Card).
#[derive(Copy, Clone, Debug, PartialEq, Eq, Structural)]
pub enum Rank {
    Two,
    Three,
    Four,
    Five,
    Six,
    Seven,
    Eight,
    Nine,
    Ten,
    Jack,
    Queen,
    King,
    Ace,
}

/// A playing card in a standard 52-card game.
#[derive(Copy, Clone, Debug, PartialEq, Eq, Structural)]
pub struct Card {
    pub suit: Suit,
    pub rank: Rank,
}

/// The dense index of a suit, in 0..4.
pub open spec fn suit_index(s: Suit) -> int {
    match s {
        Suit::Diamond => 0,
        Suit::Heart => 1,
        Suit::Spade => 2,
        Suit::Club => 3,
    }
}

/// The dense index of a rank, in 0..13.
pub open spec fn rank_index(r: Rank) -> int {
    match r {
        Rank::Two => 0,
        Rank::Three => 1,
        Rank::Four => 2,
        Rank::Five => 3,
        Rank::Six => 4,
        Rank::Seven => 5,
        Rank::Eight => 6,
        Rank::Nine => 7,
        Rank::Ten => 8,
        Rank::Jack => 9,
        Rank::Queen => 10,
        Rank::King => 11,
        Rank::Ace => 12,
    }
}

/// The dense index of a card, in 0..52: ranks are major, suits are minor,
/// so the cards of one rank occupy four adjacent indices.
pub open spec fn card_index(c: Card) -> int {
    rank_index(c.rank) * 4 + suit_index(c.suit)
}

/// Whether `c` may legally be placed on top of a face-up `other`:
/// same rank always works, an ace works on anything, and a face card
/// (jack, queen, king) works on any card of its own suit.
pub open spec fn spec_can_be_placed_on(c: Card, other: Card) -> bool {
    ||| c.rank == other.rank
    ||| c.rank == Rank::Ace
    ||| ((c.rank == Rank::Jack || c.rank == Rank::Queen || c.rank == Rank::King) && c.suit
        == other.suit)
}

impl Card {
    /// The dense index of this card, in 0..52.
    pub fn to_index(self) -> (r: u8)
        ensures
            r == card_index(self),
    {
        let suit_num: u8 = match self.suit {
            Suit::Diamond => 0,
            Suit::Heart => 1,
            Suit::Spade => 2,
            Suit::Club => 3,
        };
        let rank_num: u8 = match self.rank {
            Rank::Two => 0,
            Rank::Three => 1,
            Rank::Four => 2,
            Rank::Five => 3,
            Rank::Six => 4,
            Rank::Seven => 5,
            Rank::Eight => 6,
            Rank::Nine => 7,
            Rank::Ten => 8,
            Rank::Jack => 9,
            Rank::Queen => 10,
            Rank::King => 11,
            Rank::Ace => 12,
        };
        rank_num * 4 + suit_num
    }

    /// The inverse of [`Card::to_index`].
    pub fn from_index(idx: u8) -> (r: Card)
        requires
            idx < 52,
        ensures
            card_index(r) == idx,
    {
        let suit = match idx % 4 {
            0 => Suit::Diamond,
            1 => Suit::Heart,
            2 => Suit::Spade,
            _ => Suit::Club,
        };
        let rank = match idx / 4 {
            0 => Rank::Two,
            1 => Rank::Three,
            2 => Rank::Four,
            3 => Rank::Five,
            4 => Rank::Six,
            5 => Rank::Seven,
            6 => Rank::Eight,
            7 => Rank::Nine,
            8 => Rank::Ten,
            9 => Rank::Jack,
            10 => Rank::Queen,
            11 => Rank::King,
            _ => Rank::Ace,
        };
        Card { suit, rank }
    }

    /// Whether this card may legally be placed on top of a face-up `other`.
    pub fn can_be_placed_on(&self, other: Card) -> (r: bool)
        ensures
            r == spec_can_be_placed_on(*self, other),
    {
        self.rank == other.rank || match self.rank {
            Rank::Ace => true,
            Rank::Jack | Rank::Queen | Rank::King => self.suit == other.suit,
            _ => false,
        }
    }
}

/// The card index is injective: distinct cards have distinct indices.
pub proof fn lemma_card_index_injective(a: Card, b: Card)
    ensures
        card_index(a) == card_index(b) ==> a == b,
{
}

/// The suit whose dense index is `k`, for `k` in 0..4.
pub open spec fn suit_of_index(k: int) -> Suit {
    if k == 0 {
        Suit::Diamond
    } else if k == 1 {
        Suit::Heart
    } else if k == 2 {
        Suit::Spade
    } else {
        Suit::Club
    }
}

/// The rank whose dense index is `k`, for `k` in 0..13.
pub open spec fn rank_of_index(k: int) -> Rank {
    if k == 0 {
        Rank::Two
    } else if k == 1 {
        Rank::Three
    } else if k == 2 {
        Rank::Four
    } else if k == 3 {
        Rank::Five
    } else if k == 4 {
        Rank::Six
    } else if k == 5 {
        Rank::Seven
    } else if k == 6 {
        Rank::Eight
    } else if k == 7 {
        Rank::Nine
    } else if k == 8 {
        Rank::Ten
    } else if k == 9 {
        Rank::Jack
    } else if k == 10 {
        Rank::Queen
    } else if k == 11 {
        Rank::King
    } else {
        Rank::Ace
    }
}

/// The card whose dense index is `k`, for `k` in 0..52.
pub open spec fn card_of_index(k: int) -> Card {
    Card { suit: suit_of_index(k % 4), rank: rank_of_index(k / 4) }
}

/// `card_of_index` and `card_index` are inverses on their domains.
pub proof fn lemma_card_index_inverse(c: Card, k: int)
    ensures
        0 <= card_index(c) < 52,
        card_of_index(card_index(c)) == c,
        0 <= k < 52 ==> card_index(card_of_index(k)) == k,
{
}

/// Error type for parsing a card from its two-character code.
#[derive(Clone, Copy, Debug, PartialEq, Eq, Structural)]
pub enum CardFromStrErr {
    LessThanTwoChars,
    MoreThanTwoChars,
    InvalidRank,
    InvalidSuit,
}

/// Relies on `char::from_u32` of std: it returns the character of the
/// given code point, and `None` exactly for surrogates and values past
/// the maximum code point.
pub assume_specification [ char::from_u32 ](i: u32) -> (r: Option<char>)
    ensures
        (r is Some) <==> (i < 0xD800 || (0xE000 <= i && i <= 0x10FFFF)),
        r matches Some(c) ==> c as u32 == i,
;

/// The code point of the card in the Unicode playing-cards block.
pub open spec fn spec_unicode_codepoint(c: Card) -> int {
    let row: int = match c.suit {
        Suit::Spade => 0,
        Suit::Heart => 1,
        Suit::Diamond => 2,
        Suit::Club => 3,
    };
    let col: int = match c.rank {
        Rank::Two => 2,
        Rank::Three => 3,
        Rank::Four => 4,
        Rank::Five => 5,
        Rank::Six => 6,
        Rank::Seven => 7,
        Rank::Eight => 8,
        Rank::Nine => 9,
        Rank::Ten => 10,
        Rank::Jack => 11,
        Rank::Queen => 13,
        Rank::King => 14,
        Rank::Ace => 1,
    };
    0x1F0A0 + 16 * row + col
}

impl Card {
    /// Renders this card as a Unicode playing-cards character.
    pub fn unicode_char(&self) -> (r: char)
        ensures
            r as u32 == spec_unicode_codepoint(*self),
    {
        let row: u32 = match self.suit {
            Suit::Spade => 0,
            Suit::Heart => 1,
            Suit::Diamond => 2,
            Suit::Club => 3,
        };
        let col: u32 = match self.rank {
            Rank::Two => 2,
            Rank::Three => 3,
            Rank::Four => 4,
            Rank::Five => 5,
            Rank::Six => 6,
            Rank::Seven => 7,
            Rank::Eight => 8,
            Rank::Nine => 9,
            Rank::Ten => 10,
            Rank::Jack => 11,
            Rank::Queen => 13,
            Rank::King => 14,
            Rank::Ace => 1,
        };
        let codepoint = 0x1F0A0 + 16 * row + col;
        match char::from_u32(codepoint) {
            Some(c) => c,
            None => vstd::pervasive::unreached(),
        }
    }
}

/// The rank named by a code character, if any (note: ten is `T`).
pub open spec fn spec_rank_of_char(ch: char) -> Option<Rank> {
    match ch {
        '2' => Some(Rank::Two),
        '3' => Some(Rank::Three),
        '4' => Some(Rank::Four),
        '5' => Some(Rank::Five),
        '6' => Some(Rank::Six),
        '7' => Some(Rank::Seven),
        '8' => Some(Rank::Eight),
        '9' => Some(Rank::Nine),
        'T' => Some(Rank::Ten),
        'J' => Some(Rank::Jack),
        'Q' => Some(Rank::Queen),
        'K' => Some(Rank::King),
        'A' => Some(Rank::Ace),
        _ => None,
    }
}

/// The suit named by a code character, if any.
pub open spec fn spec_suit_of_char(ch: char) -> Option<Suit> {
    match ch {
        '♦' => Some(Suit::Diamond),
        '♥' => Some(Suit::Heart),
        '♠' => Some(Suit::Spade),
        '♣' => Some(Suit::Club),
        _ => None,
    }
}

impl Card {
    /// Parses a card from a two-character code: the rank (with `T` for
    /// ten) followed by the suit as a unicode character.
    pub fn parse_code(s: &str) -> (r: Result<Card, CardFromStrErr>)
        ensures
            match r {
                Ok(c) => s@.len() == 2 && spec_rank_of_char(s@[0]) == Some(c.rank)
                    && spec_suit_of_char(s@[1]) == Some(c.suit),
                Err(e) => match e {
                    CardFromStrErr::LessThanTwoChars => s@.len() < 2,
                    CardFromStrErr::MoreThanTwoChars => s@.len() > 2,
                    CardFromStrErr::InvalidRank => s@.len() >= 2 && spec_rank_of_char(s@[0])
                        is None,
                    CardFromStrErr::InvalidSuit => s@.len() == 2 && spec_rank_of_char(s@[0])
                        is Some && spec_suit_of_char(s@[1]) is None,
                },
            },
    {
        proof {
            broadcast use vstd::string::axiom_spec_iter;
            broadcast use vstd::string::next_postcondition;

        }
        let mut chars = s.chars();
        let rank_char = match chars.next() {
            Some(c) => c,
            None => {
                return Err(CardFromStrErr::LessThanTwoChars);
            },
        };
        let suit_char = match chars.next() {
            Some(c) => c,
            None => {
                return Err(CardFromStrErr::LessThanTwoChars);
            },
        };
        match chars.next() {
            Some(_) => {
                return Err(CardFromStrErr::MoreThanTwoChars);
            },
            None => {},
        }
        let rank = match rank_char {
            '2' => Rank::Two,
            '3' => Rank::Three,
            '4' => Rank::Four,
            '5' => Rank::Five,
            '6' => Rank::Six,
            '7' => Rank::Seven,
            '8' => Rank::Eight,
            '9' => Rank::Nine,
            'T' => Rank::Ten,
            'J' => Rank::Jack,
            'Q' => Rank::Queen,
            'K' => Rank::King,
            'A' => Rank::Ace,
            _ => {
                return Err(CardFromStrErr::InvalidRank);
            },
        };
        let suit = match suit_char {
            '♦' => Suit::Diamond,
            '♥' => Suit::Heart,
            '♠' => Suit::Spade,
            '♣' => Suit::Club,
            _ => {
                return Err(CardFromStrErr::InvalidSuit);
            },
        };
        Ok(Card { rank, suit })
    }
}

impl core::str::FromStr for Card {
    type Err = CardFromStrErr;

    /// Parses a card from its two-character code; see [`Card::parse_code`].
    fn from_str(s: &str) -> Result<Card, CardFromStrErr> {
        Card::parse_code(s)
    }
}

} // verus!
