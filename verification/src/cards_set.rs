//! A compact, immutable set of [`Card`]s, stored as a 52-bit vector
//! indexed by the dense card index.

use vstd::prelude::*;

use crate::bitops::bit64;
use crate::bitops::count_bits;
use crate::bitops::lemma_and_mask_high;
use crate::bitops::lemma_bit_clear_mask;
use crate::bitops::lemma_bit_or_mask;
use crate::bitops::lemma_bit_pairwise;
use crate::bitops::lemma_bit_test;
use crate::bitops::lemma_clear_bit_decreases;
use crate::bitops::lemma_high_bits_zero;
use crate::bitops::lemma_mask_preserve_high;
use crate::bitops::lemma_ops_preserve_high;
use crate::bitops::lemma_popcount_card;
use crate::bitops::lemma_zero_no_bits;
use crate::bitops::bit_index_set;
use crate::bitops::popcount;
use crate::cards::card_index;
use crate::cards::card_of_index;
use crate::cards::lemma_card_index_inverse;
use crate::cards::Card;
use crate::cards::Rank;
use crate::cards::Suit;

verus! {

/// All 52 card bits.
pub const CARDS_MASK: u64 = 0xfffffffffffff;

/// A compact set of [`Card`]s.
///
/// This is an immutable type: methods such as [`CardsSet::insert`] return a
/// new set instead of mutating in place. It is also `Copy`, so a value is
/// not consumed by methods with a `self` receiver.
#[derive(Clone, Copy, Debug, PartialEq, Eq, Structural)]
pub struct CardsSet {
    bits: u64,
}

/// Whether the card `c` is present in the 52-bit vector `bits`.
spec fn card_bit(bits: u64, c: Card) -> bool {
    bit64(bits, card_index(c) as u64)
}

impl View for CardsSet {
    type V = Set<Card>;

    /// A `CardsSet` abstracts to the set of cards whose bits are set.
    closed spec fn view(&self) -> Set<Card> {
        Set::new(|c: Card| card_bit(self.bits, c))
    }
}

impl CardsSet {
    #[verifier::type_invariant]
    spec fn type_inv(self) -> bool {
        self.bits >> 52u64 == 0
    }

    /// Creates a new, empty set.
    pub fn new() -> (r: Self)
        ensures
            r@ == Set::<Card>::empty(),
    {
        proof {
            assert(0u64 >> 52u64 == 0) by (bit_vector);
        }
        let r = Self { bits: 0 };
        proof {
            assert forall|c: Card| !#[trigger] card_bit(0u64, c) by {
                lemma_card_index_inverse(c, 0);
                lemma_zero_no_bits(card_index(c) as u64);
            }
            assert(r@ =~= Set::<Card>::empty());
        }
        r
    }

    /// Builds the set holding exactly the cards of the given list.
    pub fn from_cards(cards: &Vec<Card>) -> (r: Self)
        ensures
            r@ == cards@.to_set(),
    {
        let mut r = Self::new();
        let n = cards.len();
        for pos in 0..n
            invariant
                n == cards@.len(),
                forall|c: Card| r@.contains(c) == cards@.subrange(0, pos as int).contains(c),
        {
            let ghost prev = r@;
            r = r.insert(cards[pos]);
            proof {
                assert forall|c: Card| r@.contains(c) == cards@.subrange(
                    0,
                    pos + 1,
                ).contains(c) by {
                    let sub1 = cards@.subrange(0, pos + 1);
                    if r@.contains(c) {
                        if prev.contains(c) {
                            let j = choose|j: int|
                                0 <= j < pos && cards@.subrange(0, pos as int)[j] == c;
                            assert(sub1[j] == c);
                        } else {
                            assert(sub1[pos as int] == c);
                        }
                    }
                    if sub1.contains(c) {
                        let j = choose|j: int| 0 <= j <= pos && sub1[j] == c;
                        if j < pos {
                            assert(cards@.subrange(0, pos as int)[j] == c);
                        }
                    }
                }
            }
        }
        proof {
            assert(cards@.subrange(0, n as int) =~= cards@);
            assert(r@ =~= cards@.to_set());
        }
        r
    }

    /// The number of cards in the set.
    pub fn len(self) -> (r: u32)
        ensures
            r == self@.len(),
            self@.finite(),
            r <= 64,
    {
        proof {
            use_type_invariant(self);
            lemma_view_card(self);
            crate::bitops::lemma_popcount_le_64(self.bits);
        }
        count_bits(self.bits)
    }

    /// Whether the set holds the given card.
    pub fn contains(self, card: Card) -> (r: bool)
        ensures
            r == self@.contains(card),
    {
        let idx = card.to_index();
        proof {
            lemma_card_index_inverse(card, 0);
            lemma_bit_test(self.bits, idx as u64);
        }
        (self.bits & (1u64 << (idx as u64))) != 0
    }

    /// Whether the set holds no card at all.
    pub fn is_empty(self) -> (r: bool)
        ensures
            r == self@.is_empty(),
    {
        proof {
            use_type_invariant(self);
            if self.bits == 0 {
                assert forall|c: Card| !#[trigger] card_bit(0u64, c) by {
                    lemma_card_index_inverse(c, 0);
                    lemma_zero_no_bits(card_index(c) as u64);
                }
                assert(self@ =~= Set::<Card>::empty());
            } else {
                broadcast use vstd::std_specs::bits::axiom_u64_trailing_zeros;

                let tz = u64::trailing_zeros(self.bits) as u64;
                assert(bit64(self.bits, tz));
                if tz >= 52 {
                    lemma_high_bits_zero(self.bits, 52, tz);
                }
                let c = card_of_index(tz as int);
                lemma_card_index_inverse(c, tz as int);
                assert(self@.contains(c));
            }
        }
        self.bits == 0
    }

    /// Returns the set with the given card added.
    #[must_use]
    pub fn insert(self, card: Card) -> (r: Self)
        ensures
            r@ == self@.insert(card),
    {
        let idx = card.to_index();
        proof {
            use_type_invariant(self);
            lemma_card_index_inverse(card, 0);
            lemma_mask_preserve_high(self.bits, idx as u64, 52);
        }
        let r = Self { bits: self.bits | (1u64 << (idx as u64)) };
        proof {
            assert forall|c: Card| r@.contains(c) == (self@.contains(c) || c == card) by {
                lemma_card_index_inverse(c, 0);
                lemma_bit_or_mask(self.bits, idx as u64, card_index(c) as u64);
            }
            assert(r@ =~= self@.insert(card));
        }
        r
    }

    /// Returns the set with the given card removed.
    #[must_use]
    pub fn remove(self, card: Card) -> (r: Self)
        ensures
            r@ == self@.remove(card),
    {
        let idx = card.to_index();
        proof {
            use_type_invariant(self);
            lemma_card_index_inverse(card, 0);
            lemma_mask_preserve_high(self.bits, idx as u64, 52);
        }
        let r = Self { bits: self.bits & !(1u64 << (idx as u64)) };
        proof {
            assert forall|c: Card| r@.contains(c) == (self@.contains(c) && c != card) by {
                lemma_card_index_inverse(c, 0);
                lemma_bit_clear_mask(self.bits, idx as u64, card_index(c) as u64);
            }
            assert(r@ =~= self@.remove(card));
        }
        r
    }

    /// The union of the two sets.
    #[must_use]
    pub fn union(self, other: Self) -> (r: Self)
        ensures
            r@ == self@.union(other@),
    {
        proof {
            use_type_invariant(self);
            use_type_invariant(other);
            lemma_ops_preserve_high(self.bits, other.bits, 52);
        }
        let r = Self { bits: self.bits | other.bits };
        proof {
            assert forall|c: Card| r@.contains(c) == (self@.contains(c) || other@.contains(c)) by {
                lemma_card_index_inverse(c, 0);
                lemma_bit_pairwise(self.bits, other.bits, card_index(c) as u64);
            }
            assert(r@ =~= self@.union(other@));
        }
        r
    }

    /// The intersection of the two sets.
    #[must_use]
    pub fn intersection(self, other: Self) -> (r: Self)
        ensures
            r@ == self@.intersect(other@),
    {
        proof {
            use_type_invariant(self);
            use_type_invariant(other);
            lemma_ops_preserve_high(self.bits, other.bits, 52);
        }
        let r = Self { bits: self.bits & other.bits };
        proof {
            assert forall|c: Card| r@.contains(c) == (self@.contains(c) && other@.contains(c)) by {
                lemma_card_index_inverse(c, 0);
                lemma_bit_pairwise(self.bits, other.bits, card_index(c) as u64);
            }
            assert(r@ =~= self@.intersect(other@));
        }
        r
    }

    /// The set of cards in `self` but not in `other`.
    #[must_use]
    pub fn difference(self, other: Self) -> (r: Self)
        ensures
            r@ == self@.difference(other@),
    {
        proof {
            use_type_invariant(self);
            use_type_invariant(other);
            lemma_ops_preserve_high(self.bits, other.bits, 52);
        }
        let r = Self { bits: self.bits & !other.bits };
        proof {
            assert forall|c: Card| r@.contains(c) == (self@.contains(c) && !other@.contains(c)) by {
                lemma_card_index_inverse(c, 0);
                lemma_bit_pairwise(self.bits, !other.bits, card_index(c) as u64);
                lemma_bit_pairwise(other.bits, other.bits, card_index(c) as u64);
            }
            assert(r@ =~= self@.difference(other@));
        }
        r
    }

    /// The set of cards in exactly one of the two sets.
    #[must_use]
    pub fn symmetric_difference(self, other: Self) -> (r: Self)
        ensures
            r@ == self@.union(other@).difference(self@.intersect(other@)),
    {
        proof {
            use_type_invariant(self);
            use_type_invariant(other);
            lemma_ops_preserve_high(self.bits, other.bits, 52);
        }
        let r = Self { bits: self.bits ^ other.bits };
        proof {
            assert forall|c: Card| r@.contains(c) == (self@.contains(c) != other@.contains(c)) by {
                lemma_card_index_inverse(c, 0);
                lemma_bit_pairwise(self.bits, other.bits, card_index(c) as u64);
            }
            assert(r@ =~= self@.union(other@).difference(self@.intersect(other@)));
        }
        r
    }

    /// The set of all cards not in `self`.
    #[must_use]
    pub fn complement(self) -> (r: Self)
        ensures
            forall|c: Card| r@.contains(c) == !self@.contains(c),
    {
        proof {
            lemma_cards_mask_bits(0);
            lemma_and_mask_high(!self.bits, CARDS_MASK, 52);
        }
        let r = Self { bits: !self.bits & CARDS_MASK };
        proof {
            assert forall|c: Card| r@.contains(c) == !self@.contains(c) by {
                lemma_card_index_inverse(c, 0);
                let k = card_index(c) as u64;
                lemma_bit_pairwise(!self.bits, CARDS_MASK, k);
                lemma_bit_pairwise(self.bits, self.bits, k);
                lemma_cards_mask_bits(k);
            }
        }
        r
    }

    /// The cards of the set, by ascending card index.
    pub fn to_vec(self) -> (r: Vec<Card>)
        ensures
            forall|c: Card| r@.contains(c) == self@.contains(c),
            forall|i: int, j: int|
                0 <= i < j < r@.len() ==> card_index(r@[i]) < card_index(r@[j]),
    {
        proof {
            use_type_invariant(self);
        }
        let mut iter = CardsSetIter { bits: self.bits };
        let mut out: Vec<Card> = Vec::new();
        proof {
            assert(iter@ =~= self@);
        }
        loop
            invariant
                forall|c: Card|
                    self@.contains(c) == (out@.contains(c) || iter@.contains(c)),
                forall|c: Card| #[trigger] iter@.contains(c) ==> self@.contains(c),
                forall|i: int, j: int|
                    0 <= i < j < out@.len() ==> card_index(out@[i]) < card_index(out@[j]),
                forall|i: int, c: Card|
                    #![trigger iter@.contains(c), out@[i]]
                    0 <= i < out@.len() && iter@.contains(c) ==> card_index(out@[i]) < card_index(
                        c,
                    ),
                forall|i: int| 0 <= i < out@.len() ==> self@.contains(#[trigger] out@[i]),
            ensures
                forall|c: Card| !iter@.contains(c),
            decreases iter.bits,
        {
            let ghost prev = iter@;
            match iter.next() {
                None => {
                    proof {
                        assert(forall|c: Card| !prev.contains(c));
                    }
                    break ;
                },
                Some(c) => {
                    let ghost prev_out = out@;
                    out.push(c);
                    proof {
                        assert forall|x: Card|
                            out@.contains(x) == (prev_out.contains(x) || x == c) by {
                            if out@.contains(x) {
                                let j = choose|j: int| 0 <= j < out@.len() && out@[j] == x;
                                if j < prev_out.len() {
                                    assert(prev_out[j] == x);
                                }
                            }
                            if prev_out.contains(x) {
                                let j = choose|j: int|
                                    0 <= j < prev_out.len() && prev_out[j] == x;
                                assert(out@[j] == x);
                            }
                            assert(out@[prev_out.len() as int] == c);
                        }
                    }
                },
            }
        }
        out
    }

    /// Returns a cursor over the cards of the set, by ascending card index.
    pub fn iter(self) -> (r: CardsSetIter)
        ensures
            r@ == self@,
    {
        proof {
            use_type_invariant(self);
        }
        let r = CardsSetIter { bits: self.bits };
        proof {
            assert(r@ =~= self@);
        }
        r
    }

    /// Builds a set straight from a 52-bit vector.
    pub(crate) fn from_bits(bits: u64) -> (r: Self)
        requires
            bits >> 52u64 == 0,
        ensures
            forall|c: Card| r@.contains(c) == bit64(bits, card_index(c) as u64),
    {
        Self { bits }
    }

    /// The raw 52-bit vector of the set.
    pub(crate) fn to_bits(self) -> (r: u64)
        ensures
            r >> 52u64 == 0,
            forall|c: Card| self@.contains(c) == bit64(r, card_index(c) as u64),
    {
        proof {
            use_type_invariant(self);
        }
        self.bits
    }
}

/// The bits of the mask of all 52 card indices.
pub proof fn lemma_cards_mask_bits(k: u64)
    ensures
        CARDS_MASK >> 52u64 == 0,
        k < 64 ==> (bit64(CARDS_MASK, k) == (k < 52)),
{
    assert(0xfffffffffffffu64 >> 52u64 == 0 && (k < 64 ==> (((0xfffffffffffffu64 >> k) & 1u64
        == 1u64) == (k < 52)))) by (bit_vector);
}

/// The view of a well-formed set is finite, and its size is the
/// population count of the bit vector.
proof fn lemma_view_card(s: CardsSet)
    requires
        s.bits >> 52u64 == 0,
    ensures
        s@.finite(),
        s@.len() == popcount(s.bits),
{
    let bset = bit_index_set(s.bits);
    lemma_popcount_card(s.bits);
    let f = |k: int| card_of_index(k);
    let mapped = bset.map(f);
    assert forall|k: int| #[trigger] bset.contains(k) implies 0 <= k < 52 by {
        if k >= 52 {
            lemma_high_bits_zero(s.bits, 52, k as u64);
        }
    }
    assert forall|c: Card| #[trigger] s@.contains(c) implies mapped.contains(c) by {
        lemma_card_index_inverse(c, 0);
        assert(bset.contains(card_index(c)));
        assert(f(card_index(c)) == c);
    }
    assert forall|c: Card| #[trigger] mapped.contains(c) implies s@.contains(c) by {
        let k = choose|k: int| bset.contains(k) && f(k) == c;
        lemma_card_index_inverse(c, k);
        assert(card_index(c) == k);
    }
    assert(mapped =~= s@);
    assert(vstd::relations::injective_on(f, bset)) by {
        assert forall|k1: int, k2: int|
            #![trigger bset.contains(k1), bset.contains(k2)]
            bset.contains(k1) && bset.contains(k2) && f(k1) == f(k2) implies k1 == k2 by {
            lemma_card_index_inverse(f(k1), k1);
            lemma_card_index_inverse(f(k2), k2);
        }
    }
    vstd::set_lib::lemma_map_size(bset, mapped, f);
}

/// A cursor over a [`CardsSet`], handing out cards by ascending card index.
#[derive(Clone, Copy, Debug)]
pub struct CardsSetIter {
    bits: u64,
}

impl View for CardsSetIter {
    type V = Set<Card>;

    /// A cursor abstracts to the set of cards it has not yet handed out.
    closed spec fn view(&self) -> Set<Card> {
        Set::new(|c: Card| card_bit(self.bits, c))
    }
}

impl CardsSetIter {
    #[verifier::type_invariant]
    spec fn type_inv(self) -> bool {
        self.bits >> 52u64 == 0
    }

    /// Hands out the smallest-index card not yet handed out, or `None`
    /// when every card of the set has been seen.
    pub fn next(&mut self) -> (r: Option<Card>)
        ensures
            match r {
                None => old(self)@.is_empty() && final(self)@ == old(self)@,
                Some(c) => {
                    &&& old(self)@.contains(c)
                    &&& final(self)@ == old(self)@.remove(c)
                    &&& forall|c2: Card|
                        old(self)@.contains(c2) ==> card_index(c) <= card_index(c2)
                    &&& final(self).spec_bits() < old(self).spec_bits()
                },
            },
            final(self).spec_bits() <= old(self).spec_bits(),
    {
        proof {
            use_type_invariant(&*self);
        }
        if self.bits == 0 {
            proof {
                assert forall|c: Card| !#[trigger] card_bit(0u64, c) by {
                    lemma_card_index_inverse(c, 0);
                    lemma_zero_no_bits(card_index(c) as u64);
                }
                assert(self@ =~= Set::<Card>::empty());
            }
            None
        } else {
            let ghost prev = *self;
            let tz32 = self.bits.trailing_zeros();
            proof {
                broadcast use vstd::std_specs::bits::axiom_u64_trailing_zeros;

                assert(bit64(self.bits, tz32 as u64));
                if tz32 >= 52 {
                    lemma_high_bits_zero(self.bits, 52, tz32 as u64);
                }
            }
            let tz = tz32 as u64;
            let card = Card::from_index(tz32 as u8);
            proof {
                lemma_mask_preserve_high(self.bits, tz, 52);
                lemma_clear_bit_decreases(self.bits, tz);
            }
            self.bits = self.bits & !(1u64 << tz);
            proof {
                broadcast use vstd::std_specs::bits::axiom_u64_trailing_zeros;

                assert(prev@.contains(card)) by {
                    lemma_card_index_inverse(card, 0);
                }
                assert forall|c: Card| self@.contains(c) == (prev@.contains(c) && c != card) by {
                    lemma_card_index_inverse(c, 0);
                    lemma_bit_clear_mask(prev.bits, tz, card_index(c) as u64);
                    if card_index(c) == card_index(card) {
                        lemma_card_index_inverse(card, 0);
                    }
                }
                assert(self@ =~= prev@.remove(card));
                assert forall|c2: Card| prev@.contains(c2) implies card_index(card) <= card_index(
                    c2,
                ) by {
                    lemma_card_index_inverse(c2, 0);
                    if card_index(c2) < tz {
                        assert((prev.bits >> (card_index(c2) as u64)) & 1u64 == 0u64);
                    }
                }
            }
            Some(card)
        }
    }

    /// The raw bits still to be handed out; exposed for termination measures.
    pub closed spec fn spec_bits(self) -> u64 {
        self.bits
    }
}

/// The red half of the deck as a sequence: diamonds then hearts, each
/// suit by ascending rank.
pub open spec fn spec_red_deck() -> Seq<Card> {
    Seq::new(26, |i: int| card_of_index(4 * (i % 13) + i / 13))
}

/// The black half of the deck as a sequence: spades then clubs, each
/// suit by ascending rank.
pub open spec fn spec_black_deck() -> Seq<Card> {
    Seq::new(26, |i: int| card_of_index(4 * (i % 13) + i / 13 + 2))
}

/// The 26 diamond and heart cards, diamonds first, each suit by ascending rank.
pub fn red_cards() -> (r: Vec<Card>)
    ensures
        r@.len() == 26,
        forall|i: int| 0 <= i < 26 ==> r@[i] == card_of_index(4 * (i % 13) + i / 13),
        r@ == spec_red_deck(),
{
    let mut v: Vec<Card> = Vec::new();
    for s in 0..2u8
        invariant
            v@.len() == s * 13,
            forall|i: int| 0 <= i < v@.len() ==> v@[i] == card_of_index(4 * (i % 13) + i / 13),
    {
        for rk in 0..13u8
            invariant
                s < 2,
                v@.len() == s * 13 + rk,
                forall|i: int| 0 <= i < v@.len() ==> v@[i] == card_of_index(4 * (i % 13) + i / 13),
        {
            let c = Card::from_index(rk * 4 + s);
            proof {
                lemma_card_index_inverse(c, (rk * 4 + s) as int);
                let i = v@.len() as int;
                assert(i % 13 == rk && i / 13 == s) by (nonlinear_arith)
                    requires
                        i == s * 13 + rk && s < 2 && rk < 13,
                ;
            }
            v.push(c);
        }
    }
    proof {
        assert(v@ =~= spec_red_deck());
    }
    v
}

/// The 26 spade and club cards, spades first, each suit by ascending rank.
pub fn black_cards() -> (r: Vec<Card>)
    ensures
        r@.len() == 26,
        forall|i: int| 0 <= i < 26 ==> r@[i] == card_of_index(4 * (i % 13) + i / 13 + 2),
        r@ == spec_black_deck(),
{
    let mut v: Vec<Card> = Vec::new();
    for s in 0..2u8
        invariant
            v@.len() == s * 13,
            forall|i: int|
                0 <= i < v@.len() ==> v@[i] == card_of_index(4 * (i % 13) + i / 13 + 2),
    {
        for rk in 0..13u8
            invariant
                s < 2,
                v@.len() == s * 13 + rk,
                forall|i: int|
                    0 <= i < v@.len() ==> v@[i] == card_of_index(4 * (i % 13) + i / 13 + 2),
        {
            let c = Card::from_index(rk * 4 + s + 2);
            proof {
                lemma_card_index_inverse(c, (rk * 4 + s + 2) as int);
                let i = v@.len() as int;
                assert(i % 13 == rk && i / 13 == s) by (nonlinear_arith)
                    requires
                        i == s * 13 + rk && s < 2 && rk < 13,
                ;
            }
            v.push(c);
        }
    }
    proof {
        assert(v@ =~= spec_black_deck());
    }
    v
}

/// The set of the 26 red cards (diamonds and hearts).
pub fn red_cards_set() -> (r: CardsSet)
    ensures
        forall|c: Card|
            r@.contains(c) == (c.suit == Suit::Diamond || c.suit == Suit::Heart),
{
    proof {
        lemma_red_mask_bits(0);
    }
    let r = CardsSet { bits: 0x3333333333333u64 };
    proof {
        assert forall|c: Card|
            r@.contains(c) == (c.suit == Suit::Diamond || c.suit == Suit::Heart) by {
            lemma_card_index_inverse(c, 0);
            let k = card_index(c) as u64;
            lemma_red_mask_bits(k);
            lemma_index_mod_four(c);
        }
    }
    r
}

/// The set of the 26 black cards (spades and clubs).
pub fn black_cards_set() -> (r: CardsSet)
    ensures
        forall|c: Card| r@.contains(c) == (c.suit == Suit::Spade || c.suit == Suit::Club),
{
    proof {
        lemma_black_mask_bits(0);
    }
    let r = CardsSet { bits: 0xcccccccccccccu64 };
    proof {
        assert forall|c: Card|
            r@.contains(c) == (c.suit == Suit::Spade || c.suit == Suit::Club) by {
            lemma_card_index_inverse(c, 0);
            let k = card_index(c) as u64;
            lemma_black_mask_bits(k);
            lemma_index_mod_four(c);
        }
    }
    r
}

/// Empty operations are idempotent: inserting a set's own element, or
/// inserting any element twice, changes nothing more than one insert,
/// and removing an absent element is a no-op. Stated over the views the
/// contracts of [`CardsSet::insert`] and [`CardsSet::remove`] use.
pub proof fn lemma_idempotent_empty_operations(s: CardsSet, c: Card)
    ensures
        s@.insert(c).insert(c) == s@.insert(c),
        s@.contains(c) ==> s@.insert(c) == s@,
        !s@.contains(c) ==> s@.remove(c) == s@,
{
    assert(s@.insert(c).insert(c) =~= s@.insert(c));
    if s@.contains(c) {
        assert(s@.insert(c) =~= s@);
    }
    if !s@.contains(c) {
        assert(s@.remove(c) =~= s@);
    }
}

/// The card index modulo four is the suit index.
proof fn lemma_index_mod_four(c: Card)
    ensures
        card_index(c) % 4 == crate::cards::suit_index(c.suit),
{
    let r = crate::cards::rank_index(c.rank);
    let s = crate::cards::suit_index(c.suit);
    assert((r * 4 + s) % 4 == s) by (nonlinear_arith)
        requires
            0 <= r && 0 <= s < 4,
    ;
}

/// The bits of the red-card mask are the indices congruent to 0 or 1 mod 4.
proof fn lemma_red_mask_bits(k: u64)
    ensures
        0x3333333333333u64 >> 52u64 == 0,
        k < 64 ==> (bit64(0x3333333333333u64, k) == (k < 52 && k % 4 < 2)),
{
    assert(0x3333333333333u64 >> 52u64 == 0 && (k < 64 ==> (((0x3333333333333u64 >> k) & 1u64
        == 1u64) == (k < 52 && k % 4 < 2)))) by (bit_vector);
}

/// The bits of the black-card mask are the indices congruent to 2 or 3 mod 4.
proof fn lemma_black_mask_bits(k: u64)
    ensures
        0xcccccccccccccu64 >> 52u64 == 0,
        k < 64 ==> (bit64(0xcccccccccccccu64, k) == (k < 52 && k % 4 >= 2)),
{
    assert(0xcccccccccccccu64 >> 52u64 == 0 && (k < 64 ==> (((0xcccccccccccccu64 >> k) & 1u64
        == 1u64) == (k < 52 && k % 4 >= 2)))) by (bit_vector);
}

} // verus!
