//! The per-cell state of the board: an optional face-up card plus a set
//! of hidden cards, packed into one machine word.

use vstd::prelude::*;

use crate::bitops::bit64;
use crate::bitops::lemma_and_mask_high;
use crate::bitops::lemma_bit_pairwise;
use crate::bitops::lemma_high_bits_zero;
use crate::cards::card_index;
use crate::cards::card_of_index;
use crate::cards::lemma_card_index_inverse;
use crate::cards::spec_can_be_placed_on;
use crate::cards::Card;
use crate::cards_set::lemma_cards_mask_bits;
use crate::cards_set::CardsSet;
use crate::cards_set::CARDS_MASK;
use crate::protocol_types::cards_strictly_ascending;
use crate::protocol_types::Field;

verus! {

const TOP_CARD_INDICATOR_BIT: u64 = 0x400000000000000;

const TOP_CARD_MASK: u64 = 0x3f0000000000000;

/// A compact representation of a single field on the board.
///
/// Contains an optional top card (face up), plus a set of hidden cards.
/// It does not store the order of the hidden cards, or which of them face
/// up or down, because that does not matter for the game.
///
/// This is an immutable type: methods that change a field return a new
/// value. It is also `Copy`, so a value is not consumed by methods with
/// a `self` receiver.
#[derive(Copy, Clone, Debug, PartialEq, Eq, Structural)]
pub struct CompactField {
    /// The low 52 bits are a bitset of the hidden cards.
    /// The next 6 bits are the index of the face-up card, if any.
    /// The next bit indicates whether there is a face-up card.
    /// The highest 5 bits are zero.
    bits: u64,
}

impl CompactField {
    #[verifier::type_invariant]
    spec fn type_inv(self) -> bool {
        &&& self.bits >> 59u64 == 0
        &&& (self.bits & TOP_CARD_INDICATOR_BIT != 0 ==> (self.bits & TOP_CARD_MASK) >> 52u64
            < 52)
        &&& (self.bits & TOP_CARD_INDICATOR_BIT == 0 ==> self.bits >> 52u64 == 0)
    }

    /// The face-up card of the field, if any.
    pub closed spec fn spec_top_card(self) -> Option<Card> {
        if self.bits & TOP_CARD_INDICATOR_BIT != 0 {
            Some(card_of_index(((self.bits & TOP_CARD_MASK) >> 52u64) as int))
        } else {
            None
        }
    }

    /// The set of hidden cards of the field.
    pub closed spec fn spec_hidden(self) -> Set<Card> {
        Set::new(|c: Card| bit64(self.bits, card_index(c) as u64))
    }

    /// All cards on the field: the hidden ones plus the top card, if any.
    pub open spec fn spec_all_cards(self) -> Set<Card> {
        match self.spec_top_card() {
            Some(c) => self.spec_hidden().insert(c),
            None => self.spec_hidden(),
        }
    }

    /// Whether a card may be placed on this field: always, unless the
    /// field has a face-up card that is incompatible.
    pub open spec fn spec_can_place_card(self, card: Card) -> bool {
        match self.spec_top_card() {
            Some(c) => spec_can_be_placed_on(card, c),
            None => true,
        }
    }

    /// Creates an empty field.
    pub fn new() -> (r: Self)
        ensures
            r.spec_top_card() is None,
            r.spec_hidden() == Set::<Card>::empty(),
    {
        proof {
            lemma_empty_field_bits();
        }
        let r = Self { bits: 0 };
        proof {
            assert forall|c: Card| !#[trigger] r.spec_hidden().contains(c) by {
                lemma_card_index_inverse(c, 0);
                crate::bitops::lemma_zero_no_bits(card_index(c) as u64);
            }
            assert(r.spec_hidden() =~= Set::<Card>::empty());
        }
        r
    }

    /// Whether the field holds no card at all.
    pub fn is_empty(self) -> (r: bool)
        ensures
            r == (self.spec_top_card() is None && self.spec_hidden().is_empty()),
    {
        proof {
            use_type_invariant(self);
            if self.bits == 0 {
                lemma_empty_field_bits();
                assert forall|c: Card| !#[trigger] self.spec_hidden().contains(c) by {
                    lemma_card_index_inverse(c, 0);
                    crate::bitops::lemma_zero_no_bits(card_index(c) as u64);
                }
                assert(self.spec_hidden() =~= Set::<Card>::empty());
            } else if self.bits & TOP_CARD_INDICATOR_BIT == 0 {
                broadcast use vstd::std_specs::bits::axiom_u64_trailing_zeros;

                let tz = u64::trailing_zeros(self.bits) as u64;
                assert(bit64(self.bits, tz));
                if tz >= 52 {
                    lemma_high_bits_zero(self.bits, 52, tz);
                }
                let c = card_of_index(tz as int);
                lemma_card_index_inverse(c, tz as int);
                assert(self.spec_hidden().contains(c));
            }
        }
        self.bits == 0
    }

    /// The uppermost card, if it faces up, else `None`.
    pub fn top_card(self) -> (r: Option<Card>)
        ensures
            r == self.spec_top_card(),
    {
        proof {
            use_type_invariant(self);
        }
        if self.bits & TOP_CARD_INDICATOR_BIT == 0 {
            None
        } else {
            let card_idx = ((self.bits & TOP_CARD_MASK) >> 52u64) as u8;
            let c = Card::from_index(card_idx);
            proof {
                lemma_card_index_inverse(c, card_idx as int);
            }
            Some(c)
        }
    }

    /// Whether `card` may be placed on this field.
    pub fn can_place_card(self, card: Card) -> (r: bool)
        ensures
            r == self.spec_can_place_card(card),
    {
        match self.top_card() {
            Some(c) => card.can_be_placed_on(c),
            None => true,
        }
    }

    /// Place a new card on this field, which will be the new face-up card.
    /// Any previous face-up card joins the hidden cards.
    #[must_use]
    pub fn place_card(self, card: Card) -> (r: Self)
        ensures
            r.spec_top_card() == Some(card),
            r.spec_hidden() == match self.spec_top_card() {
                Some(c) => self.spec_hidden().insert(c),
                None => self.spec_hidden(),
            },
    {
        let card_idx = card.to_index();
        let flipped = self.turn_face_down();
        proof {
            use_type_invariant(flipped);
            lemma_card_index_inverse(card, 0);
            lemma_place_bits(flipped.bits, card_idx as u64, 0);
        }
        let r = Self { bits: flipped.bits | TOP_CARD_INDICATOR_BIT | ((card_idx as u64) << 52u64) };
        proof {
            lemma_card_index_inverse(card_of_index(card_idx as int), card_idx as int);
            assert forall|c: Card| #![trigger card_index(c)] true implies bit64(
                r.bits,
                card_index(c) as u64,
            ) == bit64(flipped.bits, card_index(c) as u64) by {
                lemma_card_index_inverse(c, 0);
                lemma_place_bits(flipped.bits, card_idx as u64, card_index(c) as u64);
            }
            assert(r.spec_hidden() =~= flipped.spec_hidden());
        }
        r
    }

    /// The number of hidden cards on this field.
    pub fn num_hidden_cards(self) -> (r: u32)
        ensures
            r == self.spec_hidden().len(),
            self.spec_hidden().finite(),
    {
        let h = self.hidden_cards();
        proof {
            assert(h@ =~= self.spec_hidden());
        }
        h.len()
    }

    /// Removes the top card, if any, and puts it into the hidden card set.
    #[must_use]
    pub fn turn_face_down(self) -> (r: Self)
        ensures
            r.spec_top_card() is None,
            r.spec_hidden() == match self.spec_top_card() {
                Some(c) => self.spec_hidden().insert(c),
                None => self.spec_hidden(),
            },
    {
        proof {
            use_type_invariant(self);
        }
        if self.bits & TOP_CARD_INDICATOR_BIT == 0 {
            self
        } else {
            let card_idx = (self.bits & TOP_CARD_MASK) >> 52u64;
            proof {
                lemma_turn_down_bits(self.bits, card_idx, 0);
                lemma_low_bits_no_top(
                    self.bits & !(TOP_CARD_INDICATOR_BIT | TOP_CARD_MASK) | (1u64 << card_idx),
                );
            }
            let r = Self { bits: self.bits & !(TOP_CARD_INDICATOR_BIT | TOP_CARD_MASK) | (1u64
                << card_idx) };
            proof {
                let top = card_of_index(card_idx as int);
                lemma_card_index_inverse(top, card_idx as int);
                assert forall|c: Card| #[trigger]
                    r.spec_hidden().contains(c) == (self.spec_hidden().contains(c) || c
                        == top) by {
                    lemma_card_index_inverse(c, 0);
                    lemma_turn_down_bits(self.bits, card_idx, card_index(c) as u64);
                }
                assert(r.spec_hidden() =~= self.spec_hidden().insert(top));
            }
            r
        }
    }

    /// The set of hidden cards on this field.
    pub fn hidden_cards(self) -> (r: CardsSet)
        ensures
            r@ == self.spec_hidden(),
    {
        proof {
            use_type_invariant(self);
            lemma_cards_mask_bits(0);
            lemma_and_mask_high(self.bits, CARDS_MASK, 52);
        }
        let r = CardsSet::from_bits(self.bits & CARDS_MASK);
        proof {
            assert forall|c: Card| #[trigger]
                r@.contains(c) == self.spec_hidden().contains(c) by {
                lemma_card_index_inverse(c, 0);
                lemma_bit_pairwise(self.bits, CARDS_MASK, card_index(c) as u64);
                lemma_cards_mask_bits(card_index(c) as u64);
            }
            assert(r@ =~= self.spec_hidden());
        }
        r
    }

    /// All cards on the field: the hidden cards plus the top card, if any.
    pub fn all_cards(self) -> (r: CardsSet)
        ensures
            r@ == self.spec_all_cards(),
    {
        match self.top_card() {
            Some(c) => self.hidden_cards().insert(c),
            None => self.hidden_cards(),
        }
    }

    /// The field as a plain record at the given coordinates.
    pub fn into_field(self, i: i8, j: i8) -> (r: Field)
        ensures
            r.i == i,
            r.j == j,
            r.top_card == self.spec_top_card(),
            forall|c: Card| r.hidden_cards@.contains(c) == self.spec_hidden().contains(c),
            cards_strictly_ascending(r.hidden_cards@),
    {
        Field { i, j, top_card: self.top_card(), hidden_cards: self.hidden_cards().to_vec() }
    }

    /// Builds the compact form of a plain field record.
    pub fn from_field(field: &Field) -> (r: Self)
        ensures
            r.spec_top_card() == field.top_card,
            r.spec_hidden() == field.hidden_cards@.to_set(),
    {
        let hidden_bits = CardsSet::from_cards(&field.hidden_cards).to_bits();
        proof {
            lemma_low_bits_no_top(hidden_bits);
        }
        let base = Self { bits: hidden_bits };
        proof {
            assert(base.spec_hidden() =~= field.hidden_cards@.to_set());
        }
        match field.top_card {
            None => base,
            Some(c) => {
                let r = base.place_card(c);
                proof {
                    assert(r.spec_hidden() =~= field.hidden_cards@.to_set());
                }
                r
            },
        }
    }
}

impl Default for CompactField {
    /// The empty field.
    fn default() -> (r: Self)
        ensures
            r.spec_top_card() is None,
            r.spec_hidden().is_empty(),
    {
        Self::new()
    }
}

/// The zero word is a valid empty field.
proof fn lemma_empty_field_bits()
    ensures
        0u64 >> 59u64 == 0,
        0u64 >> 52u64 == 0,
        0u64 & TOP_CARD_INDICATOR_BIT == 0,
{
    assert(0u64 >> 59u64 == 0 && 0u64 >> 52u64 == 0 && 0u64 & 0x400000000000000u64 == 0)
        by (bit_vector);
}

/// A word with only low bits has no top-card marker.
proof fn lemma_low_bits_no_top(x: u64)
    requires
        x >> 52u64 == 0,
    ensures
        x >> 59u64 == 0,
        x & TOP_CARD_INDICATOR_BIT == 0,
{
    assert((x >> 52u64 == 0) ==> (x >> 59u64 == 0 && x & 0x400000000000000u64 == 0))
        by (bit_vector);
}

/// Clearing the top-card bits and setting the hidden bit of the old top
/// card affects exactly those bits.
proof fn lemma_turn_down_bits(x: u64, t: u64, k: u64)
    requires
        x >> 59u64 == 0,
        x & TOP_CARD_INDICATOR_BIT != 0,
        t == (x & TOP_CARD_MASK) >> 52u64,
        t < 52,
        k < 52,
    ensures
        (x & !(TOP_CARD_INDICATOR_BIT | TOP_CARD_MASK) | (1u64 << t)) >> 52u64 == 0,
        bit64(x & !(TOP_CARD_INDICATOR_BIT | TOP_CARD_MASK) | (1u64 << t), k) == (bit64(x, k) || k
            == t),
{
    let y = x & !(0x400000000000000u64 | 0x3f0000000000000u64) | (1u64 << t);
    assert((y >> 52u64 == 0) && ((((y >> k) & 1u64) == 1u64) == ((((x >> k) & 1u64) == 1u64) || k
        == t))) by (bit_vector)
        requires
            x >> 59u64 == 0 && t < 52 && k < 52 && y == (x & !(0x400000000000000u64
                | 0x3f0000000000000u64) | (1u64 << t)),
    ;
}

/// Setting the top-card marker and index over a pure hidden-set word
/// leaves the hidden bits alone.
proof fn lemma_place_bits(y: u64, n: u64, k: u64)
    requires
        y >> 52u64 == 0,
        n < 52,
        k < 52,
    ensures
        (y | TOP_CARD_INDICATOR_BIT | (n << 52u64)) >> 59u64 == 0,
        (y | TOP_CARD_INDICATOR_BIT | (n << 52u64)) & TOP_CARD_INDICATOR_BIT != 0,
        ((y | TOP_CARD_INDICATOR_BIT | (n << 52u64)) & TOP_CARD_MASK) >> 52u64 == n,
        bit64(y | TOP_CARD_INDICATOR_BIT | (n << 52u64), k) == bit64(y, k),
{
    let z = y | 0x400000000000000u64 | (n << 52u64);
    assert((z >> 59u64 == 0) && (z & 0x400000000000000u64 != 0) && ((z & 0x3f0000000000000u64)
        >> 52u64 == n) && ((((z >> k) & 1u64) == 1u64) == (((y >> k) & 1u64) == 1u64)))
        by (bit_vector)
        requires
            y >> 52u64 == 0 && n < 52 && k < 52 && z == (y | 0x400000000000000u64 | (n
                << 52u64)),
    ;
}

} // verus!
