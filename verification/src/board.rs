//! The aggregate board: a sorted sparse list of occupied cells, the
//! derived bounding box, and four per-suit occupancy bitboards.

use vstd::prelude::*;

use crate::bbox::BoundingBox;
use crate::bitboard::line_cell;
use crate::bitboard::spec_line_count;
use crate::bitboard::spec_line_count_upto;
use crate::bitboard::BitBoard;
use crate::cards::card_index;
use crate::cards::spec_can_be_placed_on;
use crate::cards::suit_index;
use crate::cards::Card;
use crate::cards::Rank;
use crate::cards::Suit;
use crate::cards_set::CardsSet;
use crate::compact_field::CompactField;
use crate::errors::IllegalCardPlayed;
use crate::protocol_types::field_wf;
use crate::protocol_types::CardToPlace;
use crate::protocol_types::Field;

verus! {

/// The side length of the box every board must fit in.
pub const BOARD_SIZE: i8 = 4;

/// Represents a board with at least one card on it.
///
/// The `fields` list holds exactly one entry per cell with at least one
/// card, sorted by `(i, j)`; the bounding box and the per-suit bitboards
/// are derived from it.
#[derive(Clone, Debug)]
pub struct Board {
    fields: Vec<(i8, i8, CompactField)>,
    bbox: BoundingBox,
    bitboards: [BitBoard; 4],
}

/// Strict row-major order on coordinates.
pub open spec fn coord_lt(a: (int, int), b: (int, int)) -> bool {
    a.0 < b.0 || (a.0 == b.0 && a.1 < b.1)
}

impl Board {
    /// The occupied cells, sorted by coordinates.
    pub closed spec fn spec_fields(self) -> Seq<(i8, i8, CompactField)> {
        self.fields@
    }

    /// The smallest area enclosing the cards currently on the board.
    pub closed spec fn spec_bbox(self) -> BoundingBox {
        self.bbox
    }

    /// The per-suit occupancy board, indexed by the dense suit index.
    pub closed spec fn spec_bitboard(self, s: int) -> BitBoard {
        self.bitboards[s]
    }

    /// Whether some cell of the board sits at the coordinate.
    pub open spec fn spec_has_cell(self, i: int, j: int) -> bool {
        exists|k: int|
            0 <= k < self.spec_fields().len() && (#[trigger] self.spec_fields()[k]).0 == i
                && self.spec_fields()[k].1 == j
    }

    /// The index of the cell at the coordinate, when one exists.
    pub open spec fn spec_cell_index(self, i: int, j: int) -> int {
        choose|k: int|
            0 <= k < self.spec_fields().len() && (#[trigger] self.spec_fields()[k]).0 == i
                && self.spec_fields()[k].1 == j
    }

    /// The cell at the coordinate, when one exists.
    pub open spec fn spec_cell(self, i: int, j: int) -> CompactField {
        self.spec_fields()[self.spec_cell_index(i, j)].2
    }

    /// The face-up card at the coordinate, if any.
    pub open spec fn spec_top_at(self, i: int, j: int) -> Option<Card> {
        if self.spec_has_cell(i, j) {
            self.spec_cell(i, j).spec_top_card()
        } else {
            None
        }
    }

    /// The hidden cards at the coordinate.
    pub open spec fn spec_hidden_at(self, i: int, j: int) -> Set<Card> {
        if self.spec_has_cell(i, j) {
            self.spec_cell(i, j).spec_hidden()
        } else {
            Set::empty()
        }
    }

    /// Whether the coordinate holds a face-up card of the given suit.
    pub open spec fn spec_suit_cell(self, s: int, i: int, j: int) -> bool {
        match self.spec_top_at(i, j) {
            Some(c) => suit_index(c.suit) == s,
            None => false,
        }
    }

    /// Whether a card may be played at the coordinate without leaving
    /// the playable area: afterwards all occupied cells must still fit
    /// in a 4 x 4 box, and the supported coordinate range must be kept.
    pub open spec fn spec_in_bounds(self, i: int, j: int) -> bool {
        &&& self.spec_bbox().i_max - (BOARD_SIZE - 1) <= i <= self.spec_bbox().i_min + (BOARD_SIZE
            - 1)
        &&& self.spec_bbox().j_max - (BOARD_SIZE - 1) <= j <= self.spec_bbox().j_min + (BOARD_SIZE
            - 1)
        &&& -52 <= i <= 52
        &&& -52 <= j <= 52
    }

    /// Well-formedness: the sorted cell list determines the bounding box
    /// and the four bitboards, every cell is non-empty, and everything
    /// stays in the supported coordinate range.
    pub open spec fn wf(self) -> bool {
        &&& self.spec_fields().len() >= 1
        &&& forall|k: int|
            0 <= k < self.spec_fields().len() ==> -52 <= (#[trigger] self.spec_fields()[k]).0 <= 52
                && -52 <= self.spec_fields()[k].1 <= 52
        &&& forall|k1: int, k2: int|
            0 <= k1 < k2 < self.spec_fields().len() ==> coord_lt(
                ((#[trigger] self.spec_fields()[k1]).0 as int, self.spec_fields()[k1].1 as int),
                ((#[trigger] self.spec_fields()[k2]).0 as int, self.spec_fields()[k2].1 as int),
            )
        &&& forall|k: int|
            0 <= k < self.spec_fields().len() ==> ((#[trigger] self.spec_fields()[k]).2.spec_top_card()
                is Some || !self.spec_fields()[k].2.spec_hidden().is_empty())
        &&& forall|k: int|
            0 <= k < self.spec_fields().len() ==> self.spec_bbox().spec_contains(
                (#[trigger] self.spec_fields()[k]).0 as int,
                self.spec_fields()[k].1 as int,
            )
        &&& exists|k: int|
            0 <= k < self.spec_fields().len() && (#[trigger] self.spec_fields()[k]).0
                == self.spec_bbox().i_min
        &&& exists|k: int|
            0 <= k < self.spec_fields().len() && (#[trigger] self.spec_fields()[k]).0
                == self.spec_bbox().i_max
        &&& exists|k: int|
            0 <= k < self.spec_fields().len() && (#[trigger] self.spec_fields()[k]).1
                == self.spec_bbox().j_min
        &&& exists|k: int|
            0 <= k < self.spec_fields().len() && (#[trigger] self.spec_fields()[k]).1
                == self.spec_bbox().j_max
        &&& self.spec_bbox().i_max - self.spec_bbox().i_min <= BOARD_SIZE - 1
        &&& self.spec_bbox().j_max - self.spec_bbox().j_min <= BOARD_SIZE - 1
        &&& forall|s: int|
            0 <= s < 4 ==> (#[trigger] self.spec_bitboard(s)).spec_offset_i() <= self.spec_bbox().i_max
                - 3 && self.spec_bbox().i_min + 3 <= self.spec_bitboard(s).spec_offset_i() + 6
                && self.spec_bitboard(s).spec_offset_j() <= self.spec_bbox().j_max - 3
                && self.spec_bbox().j_min + 3 <= self.spec_bitboard(s).spec_offset_j() + 6
        &&& forall|s: int| 0 <= s < 4 ==> (#[trigger] self.spec_bitboard(s)).same_offset(
            self.spec_bitboard(0),
        )
        &&& forall|s: int, a: int, b: int|
            0 <= s < 4 ==> #[trigger] self.spec_bitboard(s).spec_contains(a, b)
                == self.spec_suit_cell(s, a, b)
    }
}

/// A cell of a well-formed board has exactly one index in the list.
pub proof fn lemma_cell_index_unique(board: Board, i: int, j: int)
    requires
        board.wf(),
        board.spec_has_cell(i, j),
    ensures
        0 <= board.spec_cell_index(i, j) < board.spec_fields().len(),
        board.spec_fields()[board.spec_cell_index(i, j)].0 == i,
        board.spec_fields()[board.spec_cell_index(i, j)].1 == j,
        forall|k: int|
            0 <= k < board.spec_fields().len() && (#[trigger] board.spec_fields()[k]).0 == i
                && board.spec_fields()[k].1 == j ==> k == board.spec_cell_index(i, j),
{
    let idx = board.spec_cell_index(i, j);
    assert forall|k: int|
        0 <= k < board.spec_fields().len() && (#[trigger] board.spec_fields()[k]).0 == i
            && board.spec_fields()[k].1 == j implies k == idx by {
        if k < idx {
            assert(coord_lt(
                (board.spec_fields()[k].0 as int, board.spec_fields()[k].1 as int),
                (board.spec_fields()[idx].0 as int, board.spec_fields()[idx].1 as int),
            ));
        }
        if idx < k {
            assert(coord_lt(
                (board.spec_fields()[idx].0 as int, board.spec_fields()[idx].1 as int),
                (board.spec_fields()[k].0 as int, board.spec_fields()[k].1 as int),
            ));
        }
    }
}

/// Every cell of a well-formed board lies within 3 of any in-bounds
/// destination, so it stays representable in a window centered there.
pub proof fn lemma_cell_near_dest(board: Board, a: int, b: int, di: int, dj: int)
    requires
        board.wf(),
        board.spec_has_cell(a, b),
        board.spec_in_bounds(di, dj),
    ensures
        -3 <= a - di <= 3,
        -3 <= b - dj <= 3,
{
    lemma_cell_index_unique(board, a, b);
    let k = board.spec_cell_index(a, b);
    assert(board.spec_bbox().spec_contains(
        board.spec_fields()[k].0 as int,
        board.spec_fields()[k].1 as int,
    ));
}

/// The dense index of a suit, as executable code.
fn suit_num(s: Suit) -> (r: usize)
    ensures
        r == suit_index(s),
{
    match s {
        Suit::Diamond => 0,
        Suit::Heart => 1,
        Suit::Spade => 2,
        Suit::Club => 3,
    }
}

impl Board {
    /// Creates a new board from a non-empty list of well-formed fields,
    /// sorted by `(i, j)`, which must fit in a 4 x 4 box within the
    /// supported coordinate range.
    #[verifier::rlimit(100)]
    pub fn new(fields: &Vec<Field>) -> (r: Board)
        requires
            fields@.len() >= 1,
            forall|k: int| 0 <= k < fields@.len() ==> field_wf(#[trigger] fields@[k]),
            forall|k: int|
                0 <= k < fields@.len() ==> -52 <= (#[trigger] fields@[k]).i <= 52 && -52
                    <= fields@[k].j <= 52,
            forall|k1: int, k2: int|
                0 <= k1 < k2 < fields@.len() ==> coord_lt(
                    ((#[trigger] fields@[k1]).i as int, fields@[k1].j as int),
                    ((#[trigger] fields@[k2]).i as int, fields@[k2].j as int),
                ),
            forall|k1: int, k2: int|
                0 <= k1 < fields@.len() && 0 <= k2 < fields@.len() ==> -3 <= (
                #[trigger] fields@[k1]).i - (#[trigger] fields@[k2]).i <= 3 && -3 <= fields@[k1].j
                    - fields@[k2].j <= 3,
        ensures
            r.wf(),
            r.spec_fields().len() == fields@.len(),
            forall|k: int|
                0 <= k < fields@.len() ==> (#[trigger] r.spec_fields()[k]).0 == fields@[k].i
                    && r.spec_fields()[k].1 == fields@[k].j && r.spec_fields()[k].2.spec_top_card()
                    == fields@[k].top_card && r.spec_fields()[k].2.spec_hidden()
                    == fields@[k].hidden_cards@.to_set(),
    {
        let first_i = fields[0].i;
        let first_j = fields[0].j;
        let mut compact: Vec<(i8, i8, CompactField)> = Vec::new();
        let mut bbox = BoundingBox::singleton(first_i, first_j);
        let empty = BitBoard::empty_board_centered_at((first_i, first_j));
        let mut bb_d = empty;
        let mut bb_h = empty;
        let mut bb_s = empty;
        let mut bb_c = empty;
        let n = fields.len();
        for pos in 0..n
            invariant
                n == fields@.len(),
                fields@.len() >= 1,
                first_i == fields@[0].i,
                first_j == fields@[0].j,
                forall|k: int| 0 <= k < fields@.len() ==> field_wf(#[trigger] fields@[k]),
                forall|k: int|
                    0 <= k < fields@.len() ==> -52 <= (#[trigger] fields@[k]).i <= 52 && -52
                        <= fields@[k].j <= 52,
                forall|k1: int, k2: int|
                    0 <= k1 < k2 < fields@.len() ==> coord_lt(
                        ((#[trigger] fields@[k1]).i as int, fields@[k1].j as int),
                        ((#[trigger] fields@[k2]).i as int, fields@[k2].j as int),
                    ),
                forall|k1: int, k2: int|
                    0 <= k1 < fields@.len() && 0 <= k2 < fields@.len() ==> -3 <= (
                    #[trigger] fields@[k1]).i - (#[trigger] fields@[k2]).i <= 3 && -3
                        <= fields@[k1].j - fields@[k2].j <= 3,
                compact@.len() == pos,
                forall|k: int|
                    0 <= k < pos ==> (#[trigger] compact@[k]).0 == fields@[k].i && compact@[k].1
                        == fields@[k].j && compact@[k].2.spec_top_card() == fields@[k].top_card
                        && compact@[k].2.spec_hidden() == fields@[k].hidden_cards@.to_set(),
                forall|k: int|
                    0 <= k < pos ==> bbox.spec_contains(
                        (#[trigger] fields@[k]).i as int,
                        fields@[k].j as int,
                    ),
                bbox.spec_contains(first_i as int, first_j as int),
                exists|k: int|
                    0 <= k < fields@.len() && (#[trigger] fields@[k]).i == bbox.i_min,
                exists|k: int|
                    0 <= k < fields@.len() && (#[trigger] fields@[k]).i == bbox.i_max,
                exists|k: int|
                    0 <= k < fields@.len() && (#[trigger] fields@[k]).j == bbox.j_min,
                exists|k: int|
                    0 <= k < fields@.len() && (#[trigger] fields@[k]).j == bbox.j_max,
                bb_d.spec_offset_i() == first_i - 3 && bb_d.spec_offset_j() == first_j - 3,
                bb_h.spec_offset_i() == first_i - 3 && bb_h.spec_offset_j() == first_j - 3,
                bb_s.spec_offset_i() == first_i - 3 && bb_s.spec_offset_j() == first_j - 3,
                bb_c.spec_offset_i() == first_i - 3 && bb_c.spec_offset_j() == first_j - 3,
                forall|a: int, b: int|
                    #![trigger bb_d.spec_contains(a, b)]
                    bb_d.spec_contains(a, b) == suit_cell_upto(fields@, 0, pos as int, a, b),
                forall|a: int, b: int|
                    #![trigger bb_h.spec_contains(a, b)]
                    bb_h.spec_contains(a, b) == suit_cell_upto(fields@, 1, pos as int, a, b),
                forall|a: int, b: int|
                    #![trigger bb_s.spec_contains(a, b)]
                    bb_s.spec_contains(a, b) == suit_cell_upto(fields@, 2, pos as int, a, b),
                forall|a: int, b: int|
                    #![trigger bb_c.spec_contains(a, b)]
                    bb_c.spec_contains(a, b) == suit_cell_upto(fields@, 3, pos as int, a, b),
        {
            let f = &fields[pos];
            compact.push((f.i, f.j, CompactField::from_field(f)));
            bbox.update(f.i, f.j);
            match f.top_card {
                Some(c) => {
                    let s = suit_num(c.suit);
                    proof {
                        lemma_suit_cell_upto_step(fields@, pos as int);
                    }
                    if s == 0 {
                        bb_d = bb_d.insert(f.i, f.j);
                    } else if s == 1 {
                        bb_h = bb_h.insert(f.i, f.j);
                    } else if s == 2 {
                        bb_s = bb_s.insert(f.i, f.j);
                    } else {
                        bb_c = bb_c.insert(f.i, f.j);
                    }
                    proof {
                        lemma_coord_unique_in_sorted(fields@, pos as int);
                    }
                },
                None => {
                    proof {
                        lemma_coord_unique_in_sorted(fields@, pos as int);
                    }
                },
            }
        }
        let r = Board { fields: compact, bbox, bitboards: [bb_d, bb_h, bb_s, bb_c] };
        proof {
            assert(bbox.i_max - bbox.i_min <= 3 && bbox.j_max - bbox.j_min <= 3) by {
                let k1 = choose|k: int|
                    0 <= k < fields@.len() && (#[trigger] fields@[k]).i == bbox.i_min;
                let k2 = choose|k: int|
                    0 <= k < fields@.len() && (#[trigger] fields@[k]).i == bbox.i_max;
                let k3 = choose|k: int|
                    0 <= k < fields@.len() && (#[trigger] fields@[k]).j == bbox.j_min;
                let k4 = choose|k: int|
                    0 <= k < fields@.len() && (#[trigger] fields@[k]).j == bbox.j_max;
                assert(-3 <= fields@[k2].i - fields@[k1].i <= 3);
                assert(-3 <= fields@[k4].j - fields@[k3].j <= 3);
            }
            assert(bbox.i_min <= first_i <= bbox.i_max && bbox.j_min <= first_j <= bbox.j_max);
            assert forall|k: int| 0 <= k < r.spec_fields().len() implies ((
            #[trigger] r.spec_fields()[k]).2.spec_top_card() is Some
                || !r.spec_fields()[k].2.spec_hidden().is_empty()) by {
                if !(fields@[k].top_card is Some) {
                    assert(field_wf(fields@[k]));
                    assert(fields@[k].hidden_cards@.len() > 0);
                    assert(fields@[k].hidden_cards@.contains(fields@[k].hidden_cards@[0]));
                    assert(fields@[k].hidden_cards@.to_set().contains(
                        fields@[k].hidden_cards@[0],
                    ));
                }
            }
            assert forall|s: int, a: int, b: int| 0 <= s < 4 implies #[trigger] r.spec_bitboard(
                s,
            ).spec_contains(a, b) == r.spec_suit_cell(s, a, b) by {
                assert(r.spec_bitboard(s) == if s == 0 {
                    bb_d
                } else if s == 1 {
                    bb_h
                } else if s == 2 {
                    bb_s
                } else {
                    bb_c
                });
                if suit_cell_upto(fields@, s, n as int, a, b) {
                    let k = choose|k: int|
                        0 <= k < n && (#[trigger] fields@[k]).i == a && fields@[k].j == b
                            && fields@[k].top_card is Some && suit_index(
                            fields@[k].top_card->Some_0.suit,
                        ) == s;
                    assert(r.spec_fields()[k].0 == a && r.spec_fields()[k].1 == b);
                    assert(r.spec_has_cell(a, b));
                    lemma_cell_index_unique_fields(r, a, b, k);
                    assert(r.spec_suit_cell(s, a, b));
                } else {
                    if r.spec_has_cell(a, b) {
                        let k = choose|k: int|
                            0 <= k < r.spec_fields().len() && (#[trigger] r.spec_fields()[k]).0
                                == a && r.spec_fields()[k].1 == b;
                        lemma_cell_index_unique_fields(r, a, b, k);
                        if r.spec_suit_cell(s, a, b) {
                            assert(fields@[k].i == a && fields@[k].j == b
                                && fields@[k].top_card is Some && suit_index(
                                fields@[k].top_card->Some_0.suit,
                            ) == s);
                            assert(suit_cell_upto(fields@, s, n as int, a, b));
                        }
                    }
                }
            }
            assert(r.spec_fields().len() >= 1);
            assert(forall|k: int|
                0 <= k < r.spec_fields().len() ==> -52 <= (#[trigger] r.spec_fields()[k]).0 <= 52
                    && -52 <= r.spec_fields()[k].1 <= 52);
            assert(forall|k1: int, k2: int|
                0 <= k1 < k2 < r.spec_fields().len() ==> coord_lt(
                    ((#[trigger] r.spec_fields()[k1]).0 as int, r.spec_fields()[k1].1 as int),
                    ((#[trigger] r.spec_fields()[k2]).0 as int, r.spec_fields()[k2].1 as int),
                ));
            assert(forall|k: int|
                0 <= k < r.spec_fields().len() ==> r.spec_bbox().spec_contains(
                    (#[trigger] r.spec_fields()[k]).0 as int,
                    r.spec_fields()[k].1 as int,
                ));
            assert(exists|k: int|
                0 <= k < r.spec_fields().len() && (#[trigger] r.spec_fields()[k]).0
                    == r.spec_bbox().i_min) by {
                let k = choose|k: int|
                    0 <= k < fields@.len() && (#[trigger] fields@[k]).i == bbox.i_min;
                assert((#[trigger] r.spec_fields()[k]).0 == r.spec_bbox().i_min);
            }
            assert(exists|k: int|
                0 <= k < r.spec_fields().len() && (#[trigger] r.spec_fields()[k]).0
                    == r.spec_bbox().i_max) by {
                let k = choose|k: int|
                    0 <= k < fields@.len() && (#[trigger] fields@[k]).i == bbox.i_max;
                assert((#[trigger] r.spec_fields()[k]).0 == r.spec_bbox().i_max);
            }
            assert(exists|k: int|
                0 <= k < r.spec_fields().len() && (#[trigger] r.spec_fields()[k]).1
                    == r.spec_bbox().j_min) by {
                let k = choose|k: int|
                    0 <= k < fields@.len() && (#[trigger] fields@[k]).j == bbox.j_min;
                assert((#[trigger] r.spec_fields()[k]).1 == r.spec_bbox().j_min);
            }
            assert(exists|k: int|
                0 <= k < r.spec_fields().len() && (#[trigger] r.spec_fields()[k]).1
                    == r.spec_bbox().j_max) by {
                let k = choose|k: int|
                    0 <= k < fields@.len() && (#[trigger] fields@[k]).j == bbox.j_max;
                assert((#[trigger] r.spec_fields()[k]).1 == r.spec_bbox().j_max);
            }
            assert(r.spec_bbox().i_max - r.spec_bbox().i_min <= BOARD_SIZE - 1);
            assert(forall|s: int|
                0 <= s < 4 ==> (#[trigger] r.spec_bitboard(s)).spec_offset_i()
                    <= r.spec_bbox().i_max - 3 && r.spec_bbox().i_min + 3 <= r.spec_bitboard(
                    s,
                ).spec_offset_i() + 6 && r.spec_bitboard(s).spec_offset_j() <= r.spec_bbox().j_max
                    - 3 && r.spec_bbox().j_min + 3 <= r.spec_bitboard(s).spec_offset_j() + 6);
            assert(forall|s: int|
                0 <= s < 4 ==> (#[trigger] r.spec_bitboard(s)).same_offset(r.spec_bitboard(0)));
        }
        r
    }

    /// The smallest area enclosing the cards currently on the board.
    pub fn bbox(&self) -> (r: BoundingBox)
        ensures
            r == self.spec_bbox(),
    {
        self.bbox
    }

    /// The coordinates where a card may be placed. Note that this area
    /// can be bigger than `BOARD_SIZE x BOARD_SIZE`: with a single card
    /// on the board it is the 7 x 7 area centered on that card.
    pub fn playable_area(&self) -> (r: BoundingBox)
        requires
            self.wf(),
        ensures
            r.i_min == self.spec_bbox().i_max - (BOARD_SIZE - 1),
            r.j_min == self.spec_bbox().j_max - (BOARD_SIZE - 1),
            r.i_max == self.spec_bbox().i_min + (BOARD_SIZE - 1),
            r.j_max == self.spec_bbox().j_min + (BOARD_SIZE - 1),
    {
        proof {
            lemma_wf_bbox_range(*self);
        }
        BoundingBox {
            i_min: self.bbox.i_max - (BOARD_SIZE - 1),
            j_min: self.bbox.j_max - (BOARD_SIZE - 1),
            i_max: self.bbox.i_min + (BOARD_SIZE - 1),
            j_max: self.bbox.j_min + (BOARD_SIZE - 1),
        }
    }

    /// The visible diamonds on the board.
    pub fn diamonds(&self) -> (r: BitBoard)
        ensures
            r == self.spec_bitboard(0),
    {
        self.bitboards[0]
    }

    /// The visible hearts on the board.
    pub fn hearts(&self) -> (r: BitBoard)
        ensures
            r == self.spec_bitboard(1),
    {
        self.bitboards[1]
    }

    /// The visible spades on the board.
    pub fn spades(&self) -> (r: BitBoard)
        ensures
            r == self.spec_bitboard(2),
    {
        self.bitboards[2]
    }

    /// The visible clubs on the board.
    pub fn clubs(&self) -> (r: BitBoard)
        ensures
            r == self.spec_bitboard(3),
    {
        self.bitboards[3]
    }

    /// Returns the cell at the given coordinate, if there are any cards
    /// on it.
    pub fn get(&self, i: i8, j: i8) -> (r: Option<CompactField>)
        requires
            self.wf(),
        ensures
            match r {
                Some(cf) => self.spec_has_cell(i as int, j as int) && cf == self.spec_cell(
                    i as int,
                    j as int,
                ),
                None => !self.spec_has_cell(i as int, j as int),
            },
    {
        let n = self.fields.len();
        for pos in 0..n
            invariant
                self.wf(),
                n == self.spec_fields().len(),
                forall|k: int|
                    0 <= k < pos ==> !((#[trigger] self.spec_fields()[k]).0 == i
                        && self.spec_fields()[k].1 == j),
        {
            let (fi, fj, cf) = self.fields[pos];
            if fi == i && fj == j {
                proof {
                    assert(self.spec_has_cell(i as int, j as int));
                    lemma_cell_index_unique(*self, i as int, j as int);
                }
                return Some(cf);
            }
        }
        None
    }

    /// Whether a card may be played at the coordinate: the placement
    /// must keep all occupied cells inside a 4 x 4 box, and stay in the
    /// supported coordinate range.
    pub fn is_in_bounds(&self, i: i8, j: i8) -> (r: bool)
        requires
            self.wf(),
        ensures
            r == self.spec_in_bounds(i as int, j as int),
    {
        let i16_: i16 = i as i16;
        let j16_: i16 = j as i16;
        (i16_ - (self.bbox.i_min as i16) < (BOARD_SIZE as i16)) && ((self.bbox.i_max as i16) - i16_
            < (BOARD_SIZE as i16)) && (j16_ - (self.bbox.j_min as i16) < (BOARD_SIZE as i16)) && ((
        self.bbox.j_max as i16) - j16_ < (BOARD_SIZE as i16)) && i >= -52 && i <= 52 && j >= -52
            && j <= 52
    }

    /// The board's occupied cells as plain field records, sorted by
    /// `(i, j)`, with each cell's hidden cards by ascending card index.
    pub fn to_fields_vec(&self) -> (r: Vec<Field>)
        requires
            self.wf(),
        ensures
            r@.len() == self.spec_fields().len(),
            forall|k: int|
                0 <= k < r@.len() ==> {
                    &&& (#[trigger] r@[k]).i == self.spec_fields()[k].0
                    &&& r@[k].j == self.spec_fields()[k].1
                    &&& r@[k].top_card == self.spec_fields()[k].2.spec_top_card()
                    &&& forall|c: Card|
                        r@[k].hidden_cards@.contains(c)
                            == self.spec_fields()[k].2.spec_hidden().contains(c)
                    &&& crate::protocol_types::cards_strictly_ascending(r@[k].hidden_cards@)
                },
    {
        let mut out: Vec<Field> = Vec::new();
        let n = self.fields.len();
        for pos in 0..n
            invariant
                self.wf(),
                n == self.spec_fields().len(),
                out@.len() == pos,
                forall|k: int|
                    0 <= k < pos ==> {
                        &&& (#[trigger] out@[k]).i == self.spec_fields()[k].0
                        &&& out@[k].j == self.spec_fields()[k].1
                        &&& out@[k].top_card == self.spec_fields()[k].2.spec_top_card()
                        &&& forall|c: Card|
                            out@[k].hidden_cards@.contains(c)
                                == self.spec_fields()[k].2.spec_hidden().contains(c)
                        &&& crate::protocol_types::cards_strictly_ascending(out@[k].hidden_cards@)
                    },
        {
            let (fi, fj, cf) = self.fields[pos];
            out.push(cf.into_field(fi, fj));
        }
        out
    }
}

/// Whether one of the first `n` fields sits at `(a, b)` with a face-up
/// card of suit `s`.
pub open spec fn suit_cell_upto(fields: Seq<Field>, s: int, n: int, a: int, b: int) -> bool {
    exists|k: int|
        0 <= k < n && (#[trigger] fields[k]).i == a && fields[k].j == b && fields[k].top_card
            is Some && suit_index(fields[k].top_card->Some_0.suit) == s
}

/// Extending the processed prefix by one field extends the per-suit
/// occupancy predicate pointwise.
proof fn lemma_suit_cell_upto_step(fields: Seq<Field>, n: int)
    requires
        0 <= n < fields.len(),
    ensures
        forall|s: int, a: int, b: int|
            #![trigger suit_cell_upto(fields, s, n + 1, a, b)]
            suit_cell_upto(fields, s, n + 1, a, b) == (suit_cell_upto(fields, s, n, a, b) || (
            fields[n].i == a && fields[n].j == b && fields[n].top_card is Some && suit_index(
                fields[n].top_card->Some_0.suit,
            ) == s)),
{
    assert forall|s: int, a: int, b: int|
        #![trigger suit_cell_upto(fields, s, n + 1, a, b)]
        suit_cell_upto(fields, s, n + 1, a, b) == (suit_cell_upto(fields, s, n, a, b) || (
        fields[n].i == a && fields[n].j == b && fields[n].top_card is Some && suit_index(
            fields[n].top_card->Some_0.suit,
        ) == s)) by {
        if suit_cell_upto(fields, s, n + 1, a, b) {
            let k = choose|k: int|
                0 <= k < n + 1 && (#[trigger] fields[k]).i == a && fields[k].j == b
                    && fields[k].top_card is Some && suit_index(fields[k].top_card->Some_0.suit)
                    == s;
            if k < n {
                assert(suit_cell_upto(fields, s, n, a, b));
            }
        }
        if suit_cell_upto(fields, s, n, a, b) {
            let k = choose|k: int|
                0 <= k < n && (#[trigger] fields[k]).i == a && fields[k].j == b
                    && fields[k].top_card is Some && suit_index(fields[k].top_card->Some_0.suit)
                    == s;
            assert(0 <= k < n + 1 && fields[k].i == a && fields[k].j == b && fields[k].top_card
                is Some && suit_index(fields[k].top_card->Some_0.suit) == s);
        }
        if fields[n].i == a && fields[n].j == b && fields[n].top_card is Some && suit_index(
            fields[n].top_card->Some_0.suit,
        ) == s {
            assert(0 <= n < n + 1 && fields[n].i == a && fields[n].j == b && fields[n].top_card
                is Some);
        }
    }
}

/// In a strictly sorted field list, no earlier field shares the
/// coordinates of field `n`.
pub proof fn lemma_coord_unique_in_sorted(fields: Seq<Field>, n: int)
    requires
        0 <= n < fields.len(),
        forall|k1: int, k2: int|
            0 <= k1 < k2 < fields.len() ==> coord_lt(
                ((#[trigger] fields[k1]).i as int, fields[k1].j as int),
                ((#[trigger] fields[k2]).i as int, fields[k2].j as int),
            ),
    ensures
        forall|k: int|
            0 <= k < fields.len() && k != n ==> !((#[trigger] fields[k]).i == fields[n].i
                && fields[k].j == fields[n].j),
{
    assert forall|k: int|
        0 <= k < fields.len() && k != n implies !((#[trigger] fields[k]).i == fields[n].i
        && fields[k].j == fields[n].j) by {
        if k < n {
            assert(coord_lt(
                (fields[k].i as int, fields[k].j as int),
                (fields[n].i as int, fields[n].j as int),
            ));
        } else {
            assert(coord_lt(
                (fields[n].i as int, fields[n].j as int),
                (fields[k].i as int, fields[k].j as int),
            ));
        }
    }
}

/// Like [`lemma_cell_index_unique`], but handing back that the known
/// witness index is the cell index.
proof fn lemma_cell_index_unique_fields(board: Board, a: int, b: int, k: int)
    requires
        0 <= k < board.spec_fields().len(),
        board.spec_fields()[k].0 == a,
        board.spec_fields()[k].1 == b,
        forall|k1: int, k2: int|
            0 <= k1 < k2 < board.spec_fields().len() ==> coord_lt(
                ((#[trigger] board.spec_fields()[k1]).0 as int, board.spec_fields()[k1].1 as int),
                ((#[trigger] board.spec_fields()[k2]).0 as int, board.spec_fields()[k2].1 as int),
            ),
    ensures
        board.spec_has_cell(a, b),
        board.spec_cell_index(a, b) == k,
        board.spec_cell(a, b) == board.spec_fields()[k].2,
{
    assert(board.spec_has_cell(a, b));
    let idx = board.spec_cell_index(a, b);
    if idx < k {
        assert(coord_lt(
            (board.spec_fields()[idx].0 as int, board.spec_fields()[idx].1 as int),
            (board.spec_fields()[k].0 as int, board.spec_fields()[k].1 as int),
        ));
    }
    if k < idx {
        assert(coord_lt(
            (board.spec_fields()[k].0 as int, board.spec_fields()[k].1 as int),
            (board.spec_fields()[idx].0 as int, board.spec_fields()[idx].1 as int),
        ));
    }
}

/// The bounding box of a well-formed board sits in the supported range.
proof fn lemma_wf_bbox_range(board: Board)
    requires
        board.wf(),
    ensures
        -52 <= board.spec_bbox().i_min <= 52,
        -52 <= board.spec_bbox().i_max <= 52,
        -52 <= board.spec_bbox().j_min <= 52,
        -52 <= board.spec_bbox().j_max <= 52,
{
}

/// Whether the card can be placed somewhere on the board: always when
/// fewer than 16 cells are occupied, else when some occupied cell can
/// take it.
pub open spec fn spec_card_placeable(board: Board, card: Card) -> bool {
    board.spec_fields().len() < 16 || exists|k: int|
        0 <= k < board.spec_fields().len() && (
        #[trigger] board.spec_fields()[k]).2.spec_can_place_card(card)
}

/// Inserts the card into the set when one is there.
pub open spec fn opt_insert(s: Set<Card>, o: Option<Card>) -> Set<Card> {
    match o {
        Some(c) => s.insert(c),
        None => s,
    }
}

impl Board {
    /// The cells a combo placement flips face-down: the in-bounds
    /// orthogonal neighbours for a jack, the in-bounds diagonal
    /// neighbours for a queen, the chosen target for a king, and
    /// nothing for any other rank.
    pub open spec fn spec_flip_set(self, ctp: CardToPlace) -> Set<(int, int)> {
        let i = ctp.i as int;
        let j = ctp.j as int;
        if ctp.card.rank == Rank::Jack {
            Set::new(
                |p: (int, int)|
                    ((p.0 == i - 1 && p.1 == j) || (p.0 == i + 1 && p.1 == j) || (p.0 == i && p.1
                        == j - 1) || (p.0 == i && p.1 == j + 1)) && self.spec_in_bounds(p.0, p.1),
            )
        } else if ctp.card.rank == Rank::Queen {
            Set::new(
                |p: (int, int)|
                    ((p.0 == i - 1 && p.1 == j - 1) || (p.0 == i - 1 && p.1 == j + 1) || (p.0 == i
                        + 1 && p.1 == j - 1) || (p.0 == i + 1 && p.1 == j + 1))
                        && self.spec_in_bounds(p.0, p.1),
            )
        } else if ctp.card.rank == Rank::King {
            match ctp.target_field_for_king_ability {
                Some(t) => Set::new(|p: (int, int)| p.0 == t.0 as int && p.1 == t.1 as int),
                None => Set::empty(),
            }
        } else {
            Set::empty()
        }
    }

    /// The capturing occupancy for a placement: the cells of the played
    /// card's suit within the 7 x 7 area centered on the destination,
    /// plus the destination itself, minus the cells flipped this step.
    pub open spec fn spec_occ(self, card: Card, i: int, j: int, flips: Set<(int, int)>) -> Set<
        (int, int),
    > {
        Set::new(
            |p: (int, int)|
                i - 3 <= p.0 <= i + 3 && j - 3 <= p.1 <= j + 3 && ((p.0 == i && p.1 == j)
                    || self.spec_suit_cell(suit_index(card.suit), p.0, p.1)) && !flips.contains(p),
        )
    }

    /// The captured cells of a placement: the occupancy cells that lie
    /// on a line segment through the destination holding exactly four
    /// occupied cells, except the destination itself.
    pub open spec fn spec_captured(self, card: Card, i: int, j: int, flips: Set<(int, int)>) -> Set<
        (int, int),
    > {
        let occ = self.spec_occ(card, i, j, flips);
        Set::new(
            |p: (int, int)|
                occ.contains(p) && !(p.0 == i && p.1 == j) && exists|dir: int, t: int|
                    0 <= dir < 4 && 0 <= t < 7 && p == line_cell(i, j, dir, t) && occ_line_count(
                        occ,
                        i,
                        j,
                        dir,
                    ) == 4,
        )
    }

    /// Why the error describes the placement, for each error variant.
    pub open spec fn spec_calc_err(self, ctp: CardToPlace, e: IllegalCardPlayed) -> bool {
        let i = ctp.i as int;
        let j = ctp.j as int;
        match e {
            IllegalCardPlayed::OutOfBounds => !self.spec_in_bounds(i, j),
            IllegalCardPlayed::IncompatibleCard { existing_card } => {
                &&& self.spec_in_bounds(i, j)
                &&& self.spec_top_at(i, j) == Some(existing_card)
                &&& !spec_can_be_placed_on(ctp.card, existing_card)
            },
            IllegalCardPlayed::NoTargetForKingAbility => {
                &&& self.spec_in_bounds(i, j)
                &&& self.spec_placement_compatible(ctp)
                &&& self.spec_has_cell(i, j)
                &&& ctp.card.rank == Rank::King
                &&& ctp.target_field_for_king_ability is None
            },
            IllegalCardPlayed::TargetForKingAbilityDoesNotExist { tgt_i, tgt_j } => {
                &&& self.spec_in_bounds(i, j)
                &&& self.spec_placement_compatible(ctp)
                &&& self.spec_has_cell(i, j)
                &&& ctp.card.rank == Rank::King
                &&& ctp.target_field_for_king_ability == Some((tgt_i, tgt_j))
                &&& !self.spec_has_cell(tgt_i as int, tgt_j as int)
            },
            IllegalCardPlayed::TargetForKingAbilityIsFaceDown { tgt_i, tgt_j } => {
                &&& self.spec_in_bounds(i, j)
                &&& self.spec_placement_compatible(ctp)
                &&& self.spec_has_cell(i, j)
                &&& ctp.card.rank == Rank::King
                &&& ctp.target_field_for_king_ability == Some((tgt_i, tgt_j))
                &&& self.spec_has_cell(tgt_i as int, tgt_j as int)
                &&& self.spec_top_at(tgt_i as int, tgt_j as int) is None
                &&& !(tgt_i == ctp.i && tgt_j == ctp.j)
            },
        }
    }

    /// Whether the played card is compatible with whatever face-up card
    /// sits at the destination.
    pub open spec fn spec_placement_compatible(self, ctp: CardToPlace) -> bool {
        match self.spec_top_at(ctp.i as int, ctp.j as int) {
            Some(c) => spec_can_be_placed_on(ctp.card, c),
            None => true,
        }
    }

    /// Whether the king ability resolves for a combo placement (only
    /// constrains king placements onto occupied cells).
    pub open spec fn spec_king_ok(self, ctp: CardToPlace) -> bool {
        (self.spec_has_cell(ctp.i as int, ctp.j as int) && ctp.card.rank == Rank::King)
            ==> match ctp.target_field_for_king_ability {
            Some(t) => self.spec_has_cell(t.0 as int, t.1 as int) && (self.spec_top_at(
                t.0 as int,
                t.1 as int,
            ) is Some || (t.0 == ctp.i && t.1 == ctp.j)),
            None => false,
        }
    }
}

/// How many of the first `t` cells of a line segment lie in the set.
pub open spec fn occ_line_count_upto(
    occ: Set<(int, int)>,
    pi: int,
    pj: int,
    dir: int,
    t: int,
) -> nat
    decreases t,
{
    if t <= 0 {
        0
    } else {
        occ_line_count_upto(occ, pi, pj, dir, t - 1) + (if occ.contains(
            line_cell(pi, pj, dir, t - 1),
        ) {
            1nat
        } else {
            0nat
        })
    }
}

/// How many cells of a 7-cell line segment lie in the set.
pub open spec fn occ_line_count(occ: Set<(int, int)>, pi: int, pj: int, dir: int) -> nat {
    occ_line_count_upto(occ, pi, pj, dir, 7)
}

/// A bitboard and a set with the same cells count the same lines.
proof fn lemma_line_count_bridge(
    bb: BitBoard,
    occ: Set<(int, int)>,
    pi: int,
    pj: int,
    dir: int,
    t: int,
)
    requires
        forall|a: int, b: int| #[trigger] bb.spec_contains(a, b) == occ.contains((a, b)),
        0 <= t <= 7,
    ensures
        spec_line_count_upto(bb, pi, pj, dir, t) == occ_line_count_upto(occ, pi, pj, dir, t),
    decreases t,
{
    if t > 0 {
        lemma_line_count_bridge(bb, occ, pi, pj, dir, t - 1);
        let c = line_cell(pi, pj, dir, t - 1);
        assert(bb.spec_contains(c.0, c.1) == occ.contains(c));
    }
}

/// The cards gathered from the captured cells among the first `n`
/// fields of the list.
pub open spec fn spec_cards_won_upto(
    fields: Seq<(i8, i8, CompactField)>,
    won: Set<(int, int)>,
    n: int,
) -> Set<Card>
    decreases n,
{
    if n <= 0 {
        Set::empty()
    } else {
        spec_cards_won_upto(fields, won, n - 1).union(
            if won.contains((fields[n - 1].0 as int, fields[n - 1].1 as int)) {
                fields[n - 1].2.spec_all_cards()
            } else {
                Set::empty()
            },
        )
    }
}

/// The pure, not-yet-applied changes of one placement: which cells get
/// flipped face-down, which cells are captured, and the placed card.
#[derive(Clone, Copy, Debug)]
pub struct Diff {
    pub flipped: BitBoard,
    pub won: BitBoard,
    pub new_card: Card,
    pub new_card_i: i8,
    pub new_card_j: i8,
}

/// The outcome of evaluating one candidate placement, tied to the board
/// it was computed from: applying it is the only way to obtain the
/// successor board, and it cannot be applied to a different board.
pub struct PlayCardCalculation {
    /// A snapshot of the board the calculation was made from.
    pub board: Ghost<Board>,
    pub diff: Diff,
    /// The cards that would be won by this play.
    pub cards_won: CardsSet,
    /// Whether another card must be played by the same actor.
    pub combo: bool,
}

impl PlayCardCalculation {
    /// The board the calculation was made from.
    pub open spec fn spec_board(self) -> Board {
        self.board@
    }

    /// Apply the computed changes from playing the card, producing the
    /// successor board. The board handed in must be the very board the
    /// calculation was made from.
    pub fn execute(self, board: &Board) -> (r: Board)
        requires
            *board == self.spec_board(),
            self.spec_board().wf(),
            self.spec_board().spec_in_bounds(
                self.diff.new_card_i as int,
                self.diff.new_card_j as int,
            ),
            self.diff.flipped.spec_offset_i() == self.diff.new_card_i - 3,
            self.diff.flipped.spec_offset_j() == self.diff.new_card_j - 3,
            self.diff.won.spec_offset_i() == self.diff.new_card_i - 3,
            self.diff.won.spec_offset_j() == self.diff.new_card_j - 3,
            !self.diff.won.spec_contains(self.diff.new_card_i as int, self.diff.new_card_j as int),
        ensures
            r.wf(),
            forall|a: int, b: int|
                #![trigger r.spec_has_cell(a, b)]
                r.spec_has_cell(a, b) == ((self.spec_board().spec_has_cell(a, b)
                    && !self.diff.won.spec_contains(a, b)) || (a == self.diff.new_card_i && b
                    == self.diff.new_card_j)),
            forall|a: int, b: int|
                #![trigger r.spec_top_at(a, b)]
                r.spec_has_cell(a, b) ==> r.spec_top_at(a, b) == spec_result_top(
                    self.spec_board(),
                    self.diff,
                    a,
                    b,
                ),
            forall|a: int, b: int|
                #![trigger r.spec_hidden_at(a, b)]
                r.spec_has_cell(a, b) ==> r.spec_hidden_at(a, b) == spec_result_hidden(
                    self.spec_board(),
                    self.diff,
                    a,
                    b,
                ),
    {
        self.diff.apply(board)
    }
}

/// The face-up card a cell shows after the placement is applied.
pub open spec fn spec_result_top(board: Board, diff: Diff, a: int, b: int) -> Option<Card> {
    let placed = if a == diff.new_card_i && b == diff.new_card_j {
        Some(diff.new_card)
    } else {
        board.spec_top_at(a, b)
    };
    if diff.flipped.spec_contains(a, b) {
        None
    } else {
        placed
    }
}

/// Whether some entry of the list sits at the coordinate.
pub open spec fn nfs_has(nfs: Seq<(i8, i8, CompactField)>, a: int, b: int) -> bool {
    exists|m: int|
        0 <= m < nfs.len() && (#[trigger] nfs[m]).0 == a && nfs[m].1 == b
}

/// Whether the cell shows a face-up card of suit `s` after the diff.
pub open spec fn result_suit(board: Board, diff: Diff, s: int, a: int, b: int) -> bool {
    match spec_result_top(board, diff, a, b) {
        Some(c) => suit_index(c.suit) == s,
        None => false,
    }
}

impl Diff {
    /// Rebuilds a fresh board with the diff applied: every cell not
    /// captured is copied forward, flipped cells are turned face-down,
    /// the new card is placed at its destination, and the bounding box
    /// and the per-suit bitboards are recomputed over the survivors.
    #[verifier::rlimit(100)]
    pub fn apply(self, board: &Board) -> (r: Board)
        requires
            board.wf(),
            board.spec_in_bounds(self.new_card_i as int, self.new_card_j as int),
            self.flipped.spec_offset_i() == self.new_card_i - 3,
            self.flipped.spec_offset_j() == self.new_card_j - 3,
            self.won.spec_offset_i() == self.new_card_i - 3,
            self.won.spec_offset_j() == self.new_card_j - 3,
            !self.won.spec_contains(self.new_card_i as int, self.new_card_j as int),
        ensures
            r.wf(),
            forall|a: int, b: int|
                #![trigger r.spec_has_cell(a, b)]
                r.spec_has_cell(a, b) == ((board.spec_has_cell(a, b) && !self.won.spec_contains(
                    a,
                    b,
                )) || (a == self.new_card_i && b == self.new_card_j)),
            forall|a: int, b: int|
                #![trigger r.spec_top_at(a, b)]
                r.spec_has_cell(a, b) ==> r.spec_top_at(a, b) == spec_result_top(
                    *board,
                    self,
                    a,
                    b,
                ),
            forall|a: int, b: int|
                #![trigger r.spec_hidden_at(a, b)]
                r.spec_has_cell(a, b) ==> r.spec_hidden_at(a, b) == spec_result_hidden(
                    *board,
                    self,
                    a,
                    b,
                ),
    {
        let ni = self.new_card_i;
        let nj = self.new_card_j;
        let mut new_fields: Vec<(i8, i8, CompactField)> = Vec::new();
        let mut bbox = BoundingBox::singleton(ni, nj);
        let empty = BitBoard::empty_board_centered_at((ni, nj));
        let mut bb_d = empty;
        let mut bb_h = empty;
        let mut bb_s = empty;
        let mut bb_c = empty;
        let mut found = false;
        let n = board.fields.len();
        for pos in 0..n
            invariant
                board.wf(),
                n == board.spec_fields().len(),
                ni == self.new_card_i,
                nj == self.new_card_j,
                board.spec_in_bounds(ni as int, nj as int),
                self.flipped.spec_offset_i() == ni - 3,
                self.flipped.spec_offset_j() == nj - 3,
                self.won.spec_offset_i() == ni - 3,
                self.won.spec_offset_j() == nj - 3,
                forall|m: int|
                    0 <= m < new_fields@.len() ==> exists|k: int|
                        0 <= k < pos && (#[trigger] board.spec_fields()[k]).0 == (
                        #[trigger] new_fields@[m]).0 && board.spec_fields()[k].1
                            == new_fields@[m].1,
                forall|m: int|
                    0 <= m < new_fields@.len() ==> !self.won.spec_contains(
                        (#[trigger] new_fields@[m]).0 as int,
                        new_fields@[m].1 as int,
                    ),
                forall|m: int|
                    0 <= m < new_fields@.len() ==> (#[trigger] new_fields@[m]).2.spec_top_card()
                        == spec_result_top(
                        *board,
                        self,
                        new_fields@[m].0 as int,
                        new_fields@[m].1 as int,
                    ),
                forall|m: int|
                    0 <= m < new_fields@.len() ==> (#[trigger] new_fields@[m]).2.spec_hidden()
                        == spec_result_hidden(
                        *board,
                        self,
                        new_fields@[m].0 as int,
                        new_fields@[m].1 as int,
                    ),
                forall|k: int|
                    0 <= k < pos ==> (self.won.spec_contains(
                        (#[trigger] board.spec_fields()[k]).0 as int,
                        board.spec_fields()[k].1 as int,
                    ) || nfs_has(
                        new_fields@,
                        board.spec_fields()[k].0 as int,
                        board.spec_fields()[k].1 as int,
                    )),
                forall|m1: int, m2: int|
                    0 <= m1 < m2 < new_fields@.len() ==> coord_lt(
                        ((#[trigger] new_fields@[m1]).0 as int, new_fields@[m1].1 as int),
                        ((#[trigger] new_fields@[m2]).0 as int, new_fields@[m2].1 as int),
                    ),
                found == nfs_has(new_fields@, ni as int, nj as int),
                bbox.spec_contains(ni as int, nj as int),
                forall|m: int|
                    0 <= m < new_fields@.len() ==> bbox.spec_contains(
                        (#[trigger] new_fields@[m]).0 as int,
                        new_fields@[m].1 as int,
                    ),
                bbox.i_min == ni || exists|m: int|
                    0 <= m < new_fields@.len() && (#[trigger] new_fields@[m]).0 == bbox.i_min,
                bbox.i_max == ni || exists|m: int|
                    0 <= m < new_fields@.len() && (#[trigger] new_fields@[m]).0 == bbox.i_max,
                bbox.j_min == nj || exists|m: int|
                    0 <= m < new_fields@.len() && (#[trigger] new_fields@[m]).1 == bbox.j_min,
                bbox.j_max == nj || exists|m: int|
                    0 <= m < new_fields@.len() && (#[trigger] new_fields@[m]).1 == bbox.j_max,
                bb_d.spec_offset_i() == ni - 3 && bb_d.spec_offset_j() == nj - 3,
                bb_h.spec_offset_i() == ni - 3 && bb_h.spec_offset_j() == nj - 3,
                bb_s.spec_offset_i() == ni - 3 && bb_s.spec_offset_j() == nj - 3,
                bb_c.spec_offset_i() == ni - 3 && bb_c.spec_offset_j() == nj - 3,
                forall|a: int, b: int|
                    #![trigger bb_d.spec_contains(a, b)]
                    bb_d.spec_contains(a, b) == (nfs_has(new_fields@, a, b) && result_suit(
                        *board,
                        self,
                        0,
                        a,
                        b,
                    )),
                forall|a: int, b: int|
                    #![trigger bb_h.spec_contains(a, b)]
                    bb_h.spec_contains(a, b) == (nfs_has(new_fields@, a, b) && result_suit(
                        *board,
                        self,
                        1,
                        a,
                        b,
                    )),
                forall|a: int, b: int|
                    #![trigger bb_s.spec_contains(a, b)]
                    bb_s.spec_contains(a, b) == (nfs_has(new_fields@, a, b) && result_suit(
                        *board,
                        self,
                        2,
                        a,
                        b,
                    )),
                forall|a: int, b: int|
                    #![trigger bb_c.spec_contains(a, b)]
                    bb_c.spec_contains(a, b) == (nfs_has(new_fields@, a, b) && result_suit(
                        *board,
                        self,
                        3,
                        a,
                        b,
                    )),
        {
            let (fi, fj, field0) = board.fields[pos];
            proof {
                assert(board.spec_has_cell(fi as int, fj as int));
                lemma_cell_index_unique_fields(*board, fi as int, fj as int, pos as int);
                lemma_cell_near_dest(*board, fi as int, fj as int, ni as int, nj as int);
                lemma_coord_unique_in_board(*board, pos as int);
            }
            let ghost prev_nfs = new_fields@;
            if !self.won.contains(fi, fj) {
                let at_dest = fi == ni && fj == nj;
                let mut field = field0;
                if at_dest {
                    field = field.place_card(self.new_card);
                    found = true;
                }
                if self.flipped.contains(fi, fj) {
                    field = field.turn_face_down();
                }
                proof {
                    assert(field.spec_top_card() == spec_result_top(
                        *board,
                        self,
                        fi as int,
                        fj as int,
                    ));
                    assert(field.spec_hidden() =~= spec_result_hidden(
                        *board,
                        self,
                        fi as int,
                        fj as int,
                    ));
                }
                new_fields.push((fi, fj, field));
                bbox.update(fi, fj);
                let ghost prev_d = bb_d;
                let ghost prev_h = bb_h;
                let ghost prev_s = bb_s;
                let ghost prev_c = bb_c;
                match field.top_card() {
                    Some(c) => {
                        let s = suit_num(c.suit);
                        if s == 0 {
                            bb_d = bb_d.insert(fi, fj);
                        } else if s == 1 {
                            bb_h = bb_h.insert(fi, fj);
                        } else if s == 2 {
                            bb_s = bb_s.insert(fi, fj);
                        } else {
                            bb_c = bb_c.insert(fi, fj);
                        }
                    },
                    None => {},
                }
                proof {
                    let fii = fi as int;
                    let fjj = fj as int;
                    assert(new_fields@[prev_nfs.len() as int] == (fi, fj, field));
                    assert forall|a: int, b: int|
                        nfs_has(new_fields@, a, b) == (nfs_has(prev_nfs, a, b) || (a == fii && b
                            == fjj)) by {
                        lemma_nfs_push(prev_nfs, (fi, fj, field), a, b);
                    }
                    assert forall|m1: int, m2: int|
                        0 <= m1 < m2 < new_fields@.len() implies coord_lt(
                        ((#[trigger] new_fields@[m1]).0 as int, new_fields@[m1].1 as int),
                        ((#[trigger] new_fields@[m2]).0 as int, new_fields@[m2].1 as int),
                    ) by {
                        if m2 == prev_nfs.len() {
                            let k = choose|k: int|
                                0 <= k < pos && (#[trigger] board.spec_fields()[k]).0
                                    == prev_nfs[m1].0 && board.spec_fields()[k].1
                                    == prev_nfs[m1].1;
                            assert(coord_lt(
                                (
                                    board.spec_fields()[k].0 as int,
                                    board.spec_fields()[k].1 as int,
                                ),
                                (
                                    board.spec_fields()[pos as int].0 as int,
                                    board.spec_fields()[pos as int].1 as int,
                                ),
                            ));
                        } else {
                            assert(new_fields@[m1] == prev_nfs[m1]);
                            assert(new_fields@[m2] == prev_nfs[m2]);
                        }
                    }
                    if !at_dest {
                        assert(found == nfs_has(new_fields@, ni as int, nj as int));
                    }
                    assert forall|k: int|
                        0 <= k <= pos implies (self.won.spec_contains(
                        (#[trigger] board.spec_fields()[k]).0 as int,
                        board.spec_fields()[k].1 as int,
                    ) || nfs_has(
                        new_fields@,
                        board.spec_fields()[k].0 as int,
                        board.spec_fields()[k].1 as int,
                    )) by {
                        if k < pos {
                            if !self.won.spec_contains(
                                board.spec_fields()[k].0 as int,
                                board.spec_fields()[k].1 as int,
                            ) {
                                assert(nfs_has(
                                    prev_nfs,
                                    board.spec_fields()[k].0 as int,
                                    board.spec_fields()[k].1 as int,
                                ));
                                let m = choose|m: int|
                                    0 <= m < prev_nfs.len() && (#[trigger] prev_nfs[m]).0
                                        == board.spec_fields()[k].0 && prev_nfs[m].1
                                        == board.spec_fields()[k].1;
                                assert(new_fields@[m] == prev_nfs[m]);
                            }
                        } else {
                            assert(new_fields@[prev_nfs.len() as int].0 == fi);
                        }
                    }
                }
            } else {
                proof {
                    assert forall|k: int|
                        0 <= k <= pos implies (self.won.spec_contains(
                        (#[trigger] board.spec_fields()[k]).0 as int,
                        board.spec_fields()[k].1 as int,
                    ) || nfs_has(
                        new_fields@,
                        board.spec_fields()[k].0 as int,
                        board.spec_fields()[k].1 as int,
                    )) by {}
                }
            }
        }
        if !found {
            proof {
                if board.spec_has_cell(ni as int, nj as int) {
                    lemma_cell_index_unique(*board, ni as int, nj as int);
                    let k = board.spec_cell_index(ni as int, nj as int);
                    assert(self.won.spec_contains(
                        board.spec_fields()[k].0 as int,
                        board.spec_fields()[k].1 as int,
                    ) || nfs_has(
                        new_fields@,
                        board.spec_fields()[k].0 as int,
                        board.spec_fields()[k].1 as int,
                    ));
                    assert(false);
                }
            }
            let mut new_field = CompactField::new().place_card(self.new_card);
            if self.flipped.contains(ni, nj) {
                new_field = new_field.turn_face_down();
            } else {
                let s = suit_num(self.new_card.suit);
                if s == 0 {
                    bb_d = bb_d.insert(ni, nj);
                } else if s == 1 {
                    bb_h = bb_h.insert(ni, nj);
                } else if s == 2 {
                    bb_s = bb_s.insert(ni, nj);
                } else {
                    bb_c = bb_c.insert(ni, nj);
                }
            }
            proof {
                assert(new_field.spec_top_card() == spec_result_top(
                    *board,
                    self,
                    ni as int,
                    nj as int,
                ));
                assert(new_field.spec_hidden() =~= spec_result_hidden(
                    *board,
                    self,
                    ni as int,
                    nj as int,
                ));
            }
            let ghost pre_insert = new_fields@;
            let ghost pre_d = bb_d;
            let mut idx: usize = 0;
            loop
                invariant
                    idx <= pre_insert.len(),
                    new_fields@ == pre_insert,
                    forall|m: int|
                        0 <= m < idx ==> coord_lt(
                            ((#[trigger] pre_insert[m]).0 as int, pre_insert[m].1 as int),
                            (ni as int, nj as int),
                        ),
                    forall|m1: int, m2: int|
                        0 <= m1 < m2 < pre_insert.len() ==> coord_lt(
                            ((#[trigger] pre_insert[m1]).0 as int, pre_insert[m1].1 as int),
                            ((#[trigger] pre_insert[m2]).0 as int, pre_insert[m2].1 as int),
                        ),
                    forall|m: int|
                        0 <= m < pre_insert.len() ==> !((#[trigger] pre_insert[m]).0 == ni
                            && pre_insert[m].1 == nj),
                ensures
                    idx <= pre_insert.len(),
                    new_fields@ == pre_insert,
                    forall|m: int|
                        0 <= m < idx ==> coord_lt(
                            ((#[trigger] pre_insert[m]).0 as int, pre_insert[m].1 as int),
                            (ni as int, nj as int),
                        ),
                    forall|m: int|
                        idx <= m < pre_insert.len() ==> coord_lt(
                            (ni as int, nj as int),
                            ((#[trigger] pre_insert[m]).0 as int, pre_insert[m].1 as int),
                        ),
                decreases pre_insert.len() - idx,
            {
                if idx == new_fields.len() {
                    break ;
                }
                let (a, b, _) = new_fields[idx];
                if a < ni || (a == ni && b < nj) {
                    idx = idx + 1;
                } else {
                    proof {
                        assert forall|m: int|
                            idx <= m < pre_insert.len() implies coord_lt(
                            (ni as int, nj as int),
                            ((#[trigger] pre_insert[m]).0 as int, pre_insert[m].1 as int),
                        ) by {
                            assert(!coord_lt(
                                (pre_insert[idx as int].0 as int, pre_insert[idx as int].1 as int),
                                (ni as int, nj as int),
                            ));
                            assert(!(pre_insert[idx as int].0 == ni && pre_insert[idx as int].1
                                == nj));
                            if m > idx {
                                assert(coord_lt(
                                    (
                                        pre_insert[idx as int].0 as int,
                                        pre_insert[idx as int].1 as int,
                                    ),
                                    (pre_insert[m].0 as int, pre_insert[m].1 as int),
                                ));
                            }
                        }
                    }
                    break ;
                }
            }
            new_fields.insert(idx, (ni, nj, new_field));
            proof {
                assert forall|a: int, b: int|
                    nfs_has(new_fields@, a, b) == (nfs_has(pre_insert, a, b) || (a == ni as int && b
                        == nj as int)) by {
                    lemma_nfs_insert(pre_insert, idx as int, (ni, nj, new_field), a, b);
                }
                assert forall|m1: int, m2: int|
                    0 <= m1 < m2 < new_fields@.len() implies coord_lt(
                    ((#[trigger] new_fields@[m1]).0 as int, new_fields@[m1].1 as int),
                    ((#[trigger] new_fields@[m2]).0 as int, new_fields@[m2].1 as int),
                ) by {
                    lemma_insert_indexing(pre_insert, idx as int, (ni, nj, new_field), m1);
                    lemma_insert_indexing(pre_insert, idx as int, (ni, nj, new_field), m2);
                }
                assert forall|m: int| 0 <= m < new_fields@.len() implies {
                    &&& (#[trigger] new_fields@[m]).2.spec_top_card() == spec_result_top(
                        *board,
                        self,
                        new_fields@[m].0 as int,
                        new_fields@[m].1 as int,
                    )
                    &&& new_fields@[m].2.spec_hidden() == spec_result_hidden(
                        *board,
                        self,
                        new_fields@[m].0 as int,
                        new_fields@[m].1 as int,
                    )
                    &&& !self.won.spec_contains(
                        new_fields@[m].0 as int,
                        new_fields@[m].1 as int,
                    ) || (new_fields@[m].0 == ni && new_fields@[m].1 == nj)
                    &&& bbox.spec_contains(new_fields@[m].0 as int, new_fields@[m].1 as int)
                } by {
                    lemma_insert_indexing(pre_insert, idx as int, (ni, nj, new_field), m);
                }
                assert(bbox.i_min == ni || exists|m: int|
                    0 <= m < new_fields@.len() && (#[trigger] new_fields@[m]).0
                        == bbox.i_min) by {
                    if bbox.i_min != ni {
                        let m = choose|m: int|
                            0 <= m < pre_insert.len() && (#[trigger] pre_insert[m]).0
                                == bbox.i_min;
                        lemma_insert_indexing(pre_insert, idx as int, (ni, nj, new_field), m);
                        lemma_insert_indexing(
                            pre_insert,
                            idx as int,
                            (ni, nj, new_field),
                            m + 1,
                        );
                        if m < idx {
                            assert(new_fields@[m].0 == bbox.i_min);
                        } else {
                            assert(new_fields@[m + 1].0 == bbox.i_min);
                        }
                    }
                }
                assert(bbox.i_max == ni || exists|m: int|
                    0 <= m < new_fields@.len() && (#[trigger] new_fields@[m]).0
                        == bbox.i_max) by {
                    if bbox.i_max != ni {
                        let m = choose|m: int|
                            0 <= m < pre_insert.len() && (#[trigger] pre_insert[m]).0
                                == bbox.i_max;
                        lemma_insert_indexing(pre_insert, idx as int, (ni, nj, new_field), m);
                        lemma_insert_indexing(
                            pre_insert,
                            idx as int,
                            (ni, nj, new_field),
                            m + 1,
                        );
                        if m < idx {
                            assert(new_fields@[m].0 == bbox.i_max);
                        } else {
                            assert(new_fields@[m + 1].0 == bbox.i_max);
                        }
                    }
                }
                assert(bbox.j_min == nj || exists|m: int|
                    0 <= m < new_fields@.len() && (#[trigger] new_fields@[m]).1
                        == bbox.j_min) by {
                    if bbox.j_min != nj {
                        let m = choose|m: int|
                            0 <= m < pre_insert.len() && (#[trigger] pre_insert[m]).1
                                == bbox.j_min;
                        lemma_insert_indexing(pre_insert, idx as int, (ni, nj, new_field), m);
                        lemma_insert_indexing(
                            pre_insert,
                            idx as int,
                            (ni, nj, new_field),
                            m + 1,
                        );
                        if m < idx {
                            assert(new_fields@[m].1 == bbox.j_min);
                        } else {
                            assert(new_fields@[m + 1].1 == bbox.j_min);
                        }
                    }
                }
                assert(bbox.j_max == nj || exists|m: int|
                    0 <= m < new_fields@.len() && (#[trigger] new_fields@[m]).1
                        == bbox.j_max) by {
                    if bbox.j_max != nj {
                        let m = choose|m: int|
                            0 <= m < pre_insert.len() && (#[trigger] pre_insert[m]).1
                                == bbox.j_max;
                        lemma_insert_indexing(pre_insert, idx as int, (ni, nj, new_field), m);
                        lemma_insert_indexing(
                            pre_insert,
                            idx as int,
                            (ni, nj, new_field),
                            m + 1,
                        );
                        if m < idx {
                            assert(new_fields@[m].1 == bbox.j_max);
                        } else {
                            assert(new_fields@[m + 1].1 == bbox.j_max);
                        }
                    }
                }
                assert forall|a: int, b: int|
                    #![trigger bb_d.spec_contains(a, b)]
                    bb_d.spec_contains(a, b) == (nfs_has(new_fields@, a, b) && result_suit(
                        *board,
                        self,
                        0,
                        a,
                        b,
                    )) by {
                    if a == ni as int && b == nj as int {
                        assert(!result_suit(*board, self, 0, a, b) || suit_index(
                            self.new_card.suit,
                        ) == 0);
                    }
                }
                assert forall|a: int, b: int|
                    #![trigger bb_h.spec_contains(a, b)]
                    bb_h.spec_contains(a, b) == (nfs_has(new_fields@, a, b) && result_suit(
                        *board,
                        self,
                        1,
                        a,
                        b,
                    )) by {
                    if a == ni as int && b == nj as int {
                        assert(!result_suit(*board, self, 1, a, b) || suit_index(
                            self.new_card.suit,
                        ) == 1);
                    }
                }
                assert forall|a: int, b: int|
                    #![trigger bb_s.spec_contains(a, b)]
                    bb_s.spec_contains(a, b) == (nfs_has(new_fields@, a, b) && result_suit(
                        *board,
                        self,
                        2,
                        a,
                        b,
                    )) by {
                    if a == ni as int && b == nj as int {
                        assert(!result_suit(*board, self, 2, a, b) || suit_index(
                            self.new_card.suit,
                        ) == 2);
                    }
                }
                assert forall|a: int, b: int|
                    #![trigger bb_c.spec_contains(a, b)]
                    bb_c.spec_contains(a, b) == (nfs_has(new_fields@, a, b) && result_suit(
                        *board,
                        self,
                        3,
                        a,
                        b,
                    )) by {
                    if a == ni as int && b == nj as int {
                        assert(!result_suit(*board, self, 3, a, b) || suit_index(
                            self.new_card.suit,
                        ) == 3);
                    }
                }
            }
        }
        let r = Board { fields: new_fields, bbox, bitboards: [bb_d, bb_h, bb_s, bb_c] };
        proof {
            let dest_won = self.won.spec_contains(ni as int, nj as int);
            assert forall|a: int, b: int|
                #![trigger r.spec_has_cell(a, b)]
                r.spec_has_cell(a, b) == ((board.spec_has_cell(a, b) && !self.won.spec_contains(
                    a,
                    b,
                )) || (a == ni as int && b == nj as int)) by {
                if r.spec_has_cell(a, b) {
                    let m = choose|m: int|
                        0 <= m < r.spec_fields().len() && (#[trigger] r.spec_fields()[m]).0 == a
                            && r.spec_fields()[m].1 == b;
                    if !(a == ni as int && b == nj as int) {
                        let k = choose|k: int|
                            0 <= k < board.spec_fields().len() && (
                            #[trigger] board.spec_fields()[k]).0 == r.spec_fields()[m].0
                                && board.spec_fields()[k].1 == r.spec_fields()[m].1;
                        assert(board.spec_has_cell(a, b));
                    }
                } else {
                    if board.spec_has_cell(a, b) && !self.won.spec_contains(a, b) {
                        lemma_cell_index_unique(*board, a, b);
                        let k = board.spec_cell_index(a, b);
                        assert(nfs_has(
                            r.spec_fields(),
                            board.spec_fields()[k].0 as int,
                            board.spec_fields()[k].1 as int,
                        ));
                        assert(false);
                    }
                    assert(!(a == ni as int && b == nj as int));
                }
            }
            assert forall|a: int, b: int|
                #![trigger r.spec_top_at(a, b)]
                r.spec_has_cell(a, b) implies r.spec_top_at(a, b) == spec_result_top(
                *board,
                self,
                a,
                b,
            ) by {
                let m = choose|m: int|
                    0 <= m < r.spec_fields().len() && (#[trigger] r.spec_fields()[m]).0 == a
                        && r.spec_fields()[m].1 == b;
                lemma_cell_index_unique_fields(r, a, b, m);
            }
            assert forall|a: int, b: int|
                #![trigger r.spec_hidden_at(a, b)]
                r.spec_has_cell(a, b) implies r.spec_hidden_at(a, b) == spec_result_hidden(
                *board,
                self,
                a,
                b,
            ) by {
                let m = choose|m: int|
                    0 <= m < r.spec_fields().len() && (#[trigger] r.spec_fields()[m]).0 == a
                        && r.spec_fields()[m].1 == b;
                lemma_cell_index_unique_fields(r, a, b, m);
            }
            assert(r.spec_bitboard(0) == bb_d && r.spec_bitboard(1) == bb_h && r.spec_bitboard(
                2,
            ) == bb_s && r.spec_bitboard(3) == bb_c);
            assert(nfs_has(r.spec_fields(), ni as int, nj as int));
            assert forall|s: int, a: int, b: int| 0 <= s < 4 implies #[trigger] r.spec_bitboard(
                s,
            ).spec_contains(a, b) == (nfs_has(r.spec_fields(), a, b) && result_suit(
                *board,
                self,
                s,
                a,
                b,
            )) by {
                if s == 0 {
                    assert(bb_d.spec_contains(a, b) == (nfs_has(r.spec_fields(), a, b)
                        && result_suit(*board, self, 0, a, b)));
                } else if s == 1 {
                    assert(bb_h.spec_contains(a, b) == (nfs_has(r.spec_fields(), a, b)
                        && result_suit(*board, self, 1, a, b)));
                } else if s == 2 {
                    assert(bb_s.spec_contains(a, b) == (nfs_has(r.spec_fields(), a, b)
                        && result_suit(*board, self, 2, a, b)));
                } else {
                    assert(bb_c.spec_contains(a, b) == (nfs_has(r.spec_fields(), a, b)
                        && result_suit(*board, self, 3, a, b)));
                }
            }
            assert forall|m: int| 0 <= m < r.spec_fields().len() implies ((
            #[trigger] r.spec_fields()[m]).2.spec_top_card() is Some
                || !r.spec_fields()[m].2.spec_hidden().is_empty()) by {
                let a = r.spec_fields()[m].0 as int;
                let b = r.spec_fields()[m].1 as int;
                let top = spec_result_top(*board, self, a, b);
                let hid = spec_result_hidden(*board, self, a, b);
                assert(r.spec_has_cell(a, b));
                if top is None {
                    if a == ni as int && b == nj as int {
                        assert(self.flipped.spec_contains(a, b));
                        assert(hid.contains(self.new_card));
                    } else {
                        lemma_cell_index_unique(*board, a, b);
                        let oldtop = board.spec_top_at(a, b);
                        if oldtop is Some {
                            assert(self.flipped.spec_contains(a, b));
                            assert(hid.contains(oldtop->Some_0));
                        } else {
                            let oldk = board.spec_cell_index(a, b);
                            assert(board.spec_fields()[oldk].2.spec_top_card() is Some
                                || !board.spec_fields()[oldk].2.spec_hidden().is_empty());
                            let w = board.spec_hidden_at(a, b).choose();
                            assert(board.spec_hidden_at(a, b).contains(w));
                            assert(hid.contains(w));
                        }
                    }
                    assert(!hid.is_empty());
                }
            }
            self.lemma_apply_wf(*board, r);
        }
        r
    }

    /// The rebuilt board is well-formed.
    #[verifier::rlimit(100)]
    proof fn lemma_apply_wf(self, board: Board, r: Board)
        requires
            board.wf(),
            board.spec_in_bounds(self.new_card_i as int, self.new_card_j as int),
            r.spec_fields().len() >= 1,
            forall|m1: int, m2: int|
                0 <= m1 < m2 < r.spec_fields().len() ==> coord_lt(
                    ((#[trigger] r.spec_fields()[m1]).0 as int, r.spec_fields()[m1].1 as int),
                    ((#[trigger] r.spec_fields()[m2]).0 as int, r.spec_fields()[m2].1 as int),
                ),
            forall|m: int|
                0 <= m < r.spec_fields().len() ==> (#[trigger] r.spec_fields()[m]).2.spec_top_card()
                    == spec_result_top(
                    board,
                    self,
                    r.spec_fields()[m].0 as int,
                    r.spec_fields()[m].1 as int,
                ) && r.spec_fields()[m].2.spec_hidden() == spec_result_hidden(
                    board,
                    self,
                    r.spec_fields()[m].0 as int,
                    r.spec_fields()[m].1 as int,
                ),
            forall|a: int, b: int|
                #![trigger r.spec_has_cell(a, b)]
                r.spec_has_cell(a, b) == ((board.spec_has_cell(a, b) && !self.won.spec_contains(
                    a,
                    b,
                )) || (a == self.new_card_i && b == self.new_card_j)),
            forall|m: int|
                0 <= m < r.spec_fields().len() ==> r.spec_bbox().spec_contains(
                    (#[trigger] r.spec_fields()[m]).0 as int,
                    r.spec_fields()[m].1 as int,
                ),
            r.spec_bbox().spec_contains(self.new_card_i as int, self.new_card_j as int),
            nfs_has(r.spec_fields(), self.new_card_i as int, self.new_card_j as int),
            r.spec_bbox().i_min == self.new_card_i || exists|m: int|
                0 <= m < r.spec_fields().len() && (#[trigger] r.spec_fields()[m]).0
                    == r.spec_bbox().i_min,
            r.spec_bbox().i_max == self.new_card_i || exists|m: int|
                0 <= m < r.spec_fields().len() && (#[trigger] r.spec_fields()[m]).0
                    == r.spec_bbox().i_max,
            r.spec_bbox().j_min == self.new_card_j || exists|m: int|
                0 <= m < r.spec_fields().len() && (#[trigger] r.spec_fields()[m]).1
                    == r.spec_bbox().j_min,
            r.spec_bbox().j_max == self.new_card_j || exists|m: int|
                0 <= m < r.spec_fields().len() && (#[trigger] r.spec_fields()[m]).1
                    == r.spec_bbox().j_max,
            forall|s: int|
                0 <= s < 4 ==> (#[trigger] r.spec_bitboard(s)).spec_offset_i() == self.new_card_i
                    - 3 && r.spec_bitboard(s).spec_offset_j() == self.new_card_j - 3,
            forall|s: int, a: int, b: int|
                0 <= s < 4 ==> #[trigger] r.spec_bitboard(s).spec_contains(a, b) == (nfs_has(
                    r.spec_fields(),
                    a,
                    b,
                ) && result_suit(board, self, s, a, b)),
            forall|m: int|
                0 <= m < r.spec_fields().len() ==> ((#[trigger] r.spec_fields()[m]).2.spec_top_card()
                    is Some || !r.spec_fields()[m].2.spec_hidden().is_empty()),
        ensures
            r.wf(),
    {
        let ni = self.new_card_i as int;
        let nj = self.new_card_j as int;
        assert forall|m: int| 0 <= m < r.spec_fields().len() implies -52 <= (
        #[trigger] r.spec_fields()[m]).0 <= 52 && -52 <= r.spec_fields()[m].1 <= 52 by {
            let a = r.spec_fields()[m].0 as int;
            let b = r.spec_fields()[m].1 as int;
            assert(r.spec_has_cell(a, b));
            if !(a == ni && b == nj) {
                lemma_cell_index_unique(board, a, b);
            }
        }
        assert forall|m: int| 0 <= m < r.spec_fields().len() implies -3 <= (
        #[trigger] r.spec_fields()[m]).0 - ni <= 3 && -3 <= r.spec_fields()[m].1 - nj <= 3 by {
            let a = r.spec_fields()[m].0 as int;
            let b = r.spec_fields()[m].1 as int;
            assert(r.spec_has_cell(a, b));
            if !(a == ni && b == nj) {
                lemma_cell_near_dest(board, a, b, ni, nj);
            }
        }
        assert(r.spec_bbox().i_max - r.spec_bbox().i_min <= 3 && r.spec_bbox().j_max
            - r.spec_bbox().j_min <= 3) by {
            if r.spec_bbox().i_min != self.new_card_i {
                let m = choose|m: int|
                    0 <= m < r.spec_fields().len() && (#[trigger] r.spec_fields()[m]).0
                        == r.spec_bbox().i_min;
                assert(-3 <= r.spec_fields()[m].0 - ni <= 3);
            }
            if r.spec_bbox().i_max != self.new_card_i {
                let m = choose|m: int|
                    0 <= m < r.spec_fields().len() && (#[trigger] r.spec_fields()[m]).0
                        == r.spec_bbox().i_max;
                assert(-3 <= r.spec_fields()[m].0 - ni <= 3);
            }
            if r.spec_bbox().j_min != self.new_card_j {
                let m = choose|m: int|
                    0 <= m < r.spec_fields().len() && (#[trigger] r.spec_fields()[m]).1
                        == r.spec_bbox().j_min;
                assert(-3 <= r.spec_fields()[m].1 - nj <= 3);
            }
            if r.spec_bbox().j_max != self.new_card_j {
                let m = choose|m: int|
                    0 <= m < r.spec_fields().len() && (#[trigger] r.spec_fields()[m]).1
                        == r.spec_bbox().j_max;
                assert(-3 <= r.spec_fields()[m].1 - nj <= 3);
            }
        }
        assert(r.spec_bbox().i_min <= ni <= r.spec_bbox().i_max && r.spec_bbox().j_min <= nj
            <= r.spec_bbox().j_max);
        assert forall|s: int, a: int, b: int| 0 <= s < 4 implies #[trigger] r.spec_bitboard(
            s,
        ).spec_contains(a, b) == r.spec_suit_cell(s, a, b) by {
            if nfs_has(r.spec_fields(), a, b) {
                let m = choose|m: int|
                    0 <= m < r.spec_fields().len() && (#[trigger] r.spec_fields()[m]).0 == a
                        && r.spec_fields()[m].1 == b;
                lemma_cell_index_unique_fields(r, a, b, m);
                assert(r.spec_top_at(a, b) == spec_result_top(board, self, a, b));
            } else {
                assert(!r.spec_has_cell(a, b));
            }
        }
    }
}

/// One step of the captured-cards recursion, unfolded.
proof fn lemma_cards_won_step(
    fields: Seq<(i8, i8, CompactField)>,
    won: Set<(int, int)>,
    n: int,
)
    requires
        0 <= n < fields.len(),
    ensures
        spec_cards_won_upto(fields, won, n + 1) == spec_cards_won_upto(fields, won, n).union(
            if won.contains((fields[n].0 as int, fields[n].1 as int)) {
                fields[n].2.spec_all_cards()
            } else {
                Set::empty()
            },
        ),
{
}

impl Board {
    /// Computes the cells a combo placement flips face-down, or why the
    /// king ability cannot resolve.
    fn fields_to_flip(&self, card_to_place: CardToPlace) -> (r: Result<
        BitBoard,
        IllegalCardPlayed,
    >)
        requires
            self.wf(),
            self.spec_in_bounds(card_to_place.i as int, card_to_place.j as int),
        ensures
            match r {
                Ok(bb) => {
                    &&& bb.spec_offset_i() == card_to_place.i - 3
                    &&& bb.spec_offset_j() == card_to_place.j - 3
                    &&& forall|a: int, b: int|
                        #![trigger bb.spec_contains(a, b)]
                        bb.spec_contains(a, b) == self.spec_flip_set(card_to_place).contains(
                            (a, b),
                        )
                    &&& card_to_place.card.rank == Rank::King
                        ==> match card_to_place.target_field_for_king_ability {
                        Some(t) => self.spec_has_cell(t.0 as int, t.1 as int) && (self.spec_top_at(
                            t.0 as int,
                            t.1 as int,
                        ) is Some || (t.0 == card_to_place.i && t.1 == card_to_place.j)),
                        None => false,
                    }
                },
                Err(e) => card_to_place.card.rank == Rank::King && match e {
                    IllegalCardPlayed::NoTargetForKingAbility => {
                        card_to_place.target_field_for_king_ability is None
                    },
                    IllegalCardPlayed::TargetForKingAbilityDoesNotExist { tgt_i, tgt_j } => {
                        &&& card_to_place.target_field_for_king_ability == Some((tgt_i, tgt_j))
                        &&& !self.spec_has_cell(tgt_i as int, tgt_j as int)
                    },
                    IllegalCardPlayed::TargetForKingAbilityIsFaceDown { tgt_i, tgt_j } => {
                        &&& card_to_place.target_field_for_king_ability == Some((tgt_i, tgt_j))
                        &&& self.spec_has_cell(tgt_i as int, tgt_j as int)
                        &&& self.spec_top_at(tgt_i as int, tgt_j as int) is None
                        &&& !(tgt_i == card_to_place.i && tgt_j == card_to_place.j)
                    },
                    _ => false,
                },
            },
    {
        let card_i = card_to_place.i;
        let card_j = card_to_place.j;
        let mut flipped = BitBoard::empty_board_centered_at((card_i, card_j));
        match card_to_place.card.rank {
            Rank::Jack => {
                if self.is_in_bounds(card_i - 1, card_j) {
                    flipped = flipped.insert(card_i - 1, card_j);
                }
                if self.is_in_bounds(card_i + 1, card_j) {
                    flipped = flipped.insert(card_i + 1, card_j);
                }
                if self.is_in_bounds(card_i, card_j - 1) {
                    flipped = flipped.insert(card_i, card_j - 1);
                }
                if self.is_in_bounds(card_i, card_j + 1) {
                    flipped = flipped.insert(card_i, card_j + 1);
                }
                proof {
                    assert forall|a: int, b: int|
                        #![trigger flipped.spec_contains(a, b)]
                        flipped.spec_contains(a, b) == self.spec_flip_set(
                            card_to_place,
                        ).contains((a, b)) by {}
                }
                Ok(flipped)
            },
            Rank::Queen => {
                if self.is_in_bounds(card_i - 1, card_j - 1) {
                    flipped = flipped.insert(card_i - 1, card_j - 1);
                }
                if self.is_in_bounds(card_i - 1, card_j + 1) {
                    flipped = flipped.insert(card_i - 1, card_j + 1);
                }
                if self.is_in_bounds(card_i + 1, card_j - 1) {
                    flipped = flipped.insert(card_i + 1, card_j - 1);
                }
                if self.is_in_bounds(card_i + 1, card_j + 1) {
                    flipped = flipped.insert(card_i + 1, card_j + 1);
                }
                proof {
                    assert forall|a: int, b: int|
                        #![trigger flipped.spec_contains(a, b)]
                        flipped.spec_contains(a, b) == self.spec_flip_set(
                            card_to_place,
                        ).contains((a, b)) by {}
                }
                Ok(flipped)
            },
            Rank::King => {
                match card_to_place.target_field_for_king_ability {
                    None => Err(IllegalCardPlayed::NoTargetForKingAbility),
                    Some((tgt_i, tgt_j)) => {
                        match self.get(tgt_i, tgt_j) {
                            None => Err(
                                IllegalCardPlayed::TargetForKingAbilityDoesNotExist {
                                    tgt_i,
                                    tgt_j,
                                },
                            ),
                            Some(field) => {
                                let top_is_none = match field.top_card() {
                                    Some(_) => false,
                                    None => true,
                                };
                                if top_is_none && !(card_i == tgt_i && card_j == tgt_j) {
                                    Err(
                                        IllegalCardPlayed::TargetForKingAbilityIsFaceDown {
                                            tgt_i,
                                            tgt_j,
                                        },
                                    )
                                } else {
                                    proof {
                                        lemma_cell_near_dest(
                                            *self,
                                            tgt_i as int,
                                            tgt_j as int,
                                            card_i as int,
                                            card_j as int,
                                        );
                                    }
                                    flipped = flipped.insert(tgt_i, tgt_j);
                                    proof {
                                        assert forall|a: int, b: int|
                                            #![trigger flipped.spec_contains(a, b)]
                                            flipped.spec_contains(a, b) == self.spec_flip_set(
                                                card_to_place,
                                            ).contains((a, b)) by {}
                                    }
                                    Ok(flipped)
                                }
                            },
                        }
                    },
                }
            },
            _ => {
                proof {
                    assert forall|a: int, b: int|
                        #![trigger flipped.spec_contains(a, b)]
                        flipped.spec_contains(a, b) == self.spec_flip_set(
                            card_to_place,
                        ).contains((a, b)) by {}
                }
                Ok(flipped)
            },
        }
    }

    /// Calculate playing a card and return the effects that this would
    /// have: whether the placement is legal, what it flips, what it
    /// captures, and whether it is a combo. No mutation occurs; the
    /// returned calculation can be applied to obtain the next board.
    ///
    /// This function does not validate that the played card has not
    /// already been played.
    #[verifier::rlimit(100)]
    pub fn calculate(&self, card_to_place: CardToPlace) -> (r: Result<
        PlayCardCalculation,
        IllegalCardPlayed,
    >)
        requires
            self.wf(),
        ensures
            match r {
                Err(e) => self.spec_calc_err(card_to_place, e),
                Ok(calc) => {
                    &&& calc.spec_board() == *self
                    &&& self.spec_in_bounds(card_to_place.i as int, card_to_place.j as int)
                    &&& self.spec_placement_compatible(card_to_place)
                    &&& self.spec_king_ok(card_to_place)
                    &&& calc.combo == self.spec_has_cell(
                        card_to_place.i as int,
                        card_to_place.j as int,
                    )
                    &&& calc.diff.new_card == card_to_place.card
                    &&& calc.diff.new_card_i == card_to_place.i
                    &&& calc.diff.new_card_j == card_to_place.j
                    &&& calc.diff.flipped.spec_offset_i() == card_to_place.i - 3
                    &&& calc.diff.flipped.spec_offset_j() == card_to_place.j - 3
                    &&& calc.diff.won.spec_offset_i() == card_to_place.i - 3
                    &&& calc.diff.won.spec_offset_j() == card_to_place.j - 3
                    &&& forall|a: int, b: int|
                        #![trigger calc.diff.flipped.spec_contains(a, b)]
                        calc.diff.flipped.spec_contains(a, b) == (calc.combo
                            && self.spec_flip_set(card_to_place).contains((a, b)))
                    &&& forall|a: int, b: int|
                        #![trigger calc.diff.won.spec_contains(a, b)]
                        calc.diff.won.spec_contains(a, b) == self.spec_captured(
                            card_to_place.card,
                            card_to_place.i as int,
                            card_to_place.j as int,
                            calc.diff.flipped.spec_cells(),
                        ).contains((a, b))
                    &&& !calc.diff.won.spec_contains(
                        card_to_place.i as int,
                        card_to_place.j as int,
                    )
                    &&& calc.cards_won@ == spec_cards_won_upto(
                        self.spec_fields(),
                        calc.diff.won.spec_cells(),
                        self.spec_fields().len() as int,
                    )
                },
            },
    {
        let i = card_to_place.i;
        let j = card_to_place.j;
        let card = card_to_place.card;
        if !self.is_in_bounds(i, j) {
            return Err(IllegalCardPlayed::OutOfBounds);
        }
        let existing_field = self.get(i, j);
        let combo = match existing_field {
            Some(f) => {
                match f.top_card() {
                    Some(c) => {
                        if !card.can_be_placed_on(c) {
                            return Err(IllegalCardPlayed::IncompatibleCard { existing_card: c });
                        }
                        true
                    },
                    None => true,
                }
            },
            None => false,
        };
        let flipped = if combo {
            match self.fields_to_flip(card_to_place) {
                Ok(f) => f,
                Err(e) => {
                    return Err(e);
                },
            }
        } else {
            BitBoard::empty_board_centered_at((i, j))
        };
        let sn = suit_num(card.suit);
        let base = if sn == 0 {
            self.bitboards[0]
        } else if sn == 1 {
            self.bitboards[1]
        } else if sn == 2 {
            self.bitboards[2]
        } else {
            self.bitboards[3]
        };
        let centered = base.recenter_to((i, j));
        let with_dest = centered.insert(i, j);
        let occ_bb = with_dest.difference(flipped);
        let ghost occ_set = self.spec_occ(card, i as int, j as int, flipped.spec_cells());
        proof {
            assert forall|a: int, b: int| #[trigger]
                occ_bb.spec_contains(a, b) == occ_set.contains((a, b)) by {
                assert(base == self.spec_bitboard(sn as int));
                assert(self.spec_bitboard(sn as int).spec_contains(a, b) == self.spec_suit_cell(
                    sn as int,
                    a,
                    b,
                ));
            }
        }
        let lines = occ_bb.lines_going_through_point(i, j);
        let won = lines.remove(i, j);
        proof {
            assert forall|dir: int| 0 <= dir < 4 implies spec_line_count(
                occ_bb,
                i as int,
                j as int,
                dir,
            ) == occ_line_count(occ_set, i as int, j as int, dir) by {
                lemma_line_count_bridge(occ_bb, occ_set, i as int, j as int, dir, 7);
            }
            assert forall|a: int, b: int|
                #![trigger won.spec_contains(a, b)]
                won.spec_contains(a, b) == self.spec_captured(
                    card,
                    i as int,
                    j as int,
                    flipped.spec_cells(),
                ).contains((a, b)) by {}
        }
        let mut cards_won = CardsSet::new();
        let n = self.fields.len();
        proof {
            assert(cards_won@ =~= spec_cards_won_upto(self.spec_fields(), won.spec_cells(), 0));
        }
        for pos in 0..n
            invariant
                self.wf(),
                n == self.spec_fields().len(),
                cards_won@ == spec_cards_won_upto(
                    self.spec_fields(),
                    won.spec_cells(),
                    pos as int,
                ),
        {
            let (fi, fj, field) = self.fields[pos];
            proof {
                lemma_cards_won_step(self.spec_fields(), won.spec_cells(), pos as int);
            }
            if won.contains(fi, fj) {
                cards_won = cards_won.union(field.all_cards());
            } else {
                proof {
                    assert(cards_won@.union(Set::<Card>::empty()) =~= cards_won@);
                }
            }
        }
        Ok(
            PlayCardCalculation {
                board: Ghost(*self),
                diff: Diff { flipped, won, new_card: card, new_card_i: i, new_card_j: j },
                cards_won,
                combo,
            },
        )
    }

    /// Whether it is possible to play this card anywhere: always when
    /// fewer than 16 cells are occupied, else when some occupied cell
    /// can take the card.
    pub fn possible_to_place_card(&self, card: Card) -> (r: bool)
        requires
            self.wf(),
        ensures
            r == spec_card_placeable(*self, card),
    {
        if self.fields.len() < 16 {
            return true;
        }
        let n = self.fields.len();
        for pos in 0..n
            invariant
                self.wf(),
                n == self.spec_fields().len(),
                forall|k: int|
                    0 <= k < pos ==> !(#[trigger] self.spec_fields()[k]).2.spec_can_place_card(
                        card,
                    ),
        {
            let (_, _, field) = self.fields[pos];
            if field.can_place_card(card) {
                return true;
            }
        }
        false
    }

    /// The set of destination cells where this card could legally be
    /// placed, ignoring the king-ability-target requirement.
    pub fn locations_for_card(&self, card: Card) -> (r: BitBoard)
        requires
            self.wf(),
        ensures
            forall|a: int, b: int|
                #![trigger r.spec_contains(a, b)]
                r.spec_contains(a, b) == (self.spec_in_bounds(a, b) && (self.spec_has_cell(a, b)
                    ==> self.spec_cell(a, b).spec_can_place_card(card))),
    {
        proof {
            lemma_wf_bbox_range(*self);
            assert(self.spec_bitboard(0).spec_offset_i() <= self.spec_bbox().i_max - 3
                && self.spec_bbox().i_min + 3 <= self.spec_bitboard(0).spec_offset_i() + 6
                && self.spec_bitboard(0).spec_offset_j() <= self.spec_bbox().j_max - 3
                && self.spec_bbox().j_min + 3 <= self.spec_bitboard(0).spec_offset_j() + 6);
        }
        let (oi, oj) = self.bitboards[0].offset();
        let center_i = oi + 3;
        let center_j = oj + 3;
        let lo_i = if self.bbox.i_max - 3 >= -52 {
            self.bbox.i_max - 3
        } else {
            -52
        };
        let hi_i = if self.bbox.i_min + 3 <= 52 {
            self.bbox.i_min + 3
        } else {
            52
        };
        let lo_j = if self.bbox.j_max - 3 >= -52 {
            self.bbox.j_max - 3
        } else {
            -52
        };
        let hi_j = if self.bbox.j_min + 3 <= 52 {
            self.bbox.j_min + 3
        } else {
            52
        };
        let mut bitboard = BitBoard::empty_board_centered_at((center_i, center_j)).insert_area(
            lo_i,
            lo_j,
            hi_i,
            hi_j,
        );
        let n = self.fields.len();
        for pos in 0..n
            invariant
                self.wf(),
                n == self.spec_fields().len(),
                bitboard.spec_offset_i() == self.spec_bitboard(0).spec_offset_i(),
                bitboard.spec_offset_j() == self.spec_bitboard(0).spec_offset_j(),
                forall|a: int, b: int|
                    #![trigger bitboard.spec_contains(a, b)]
                    bitboard.spec_contains(a, b) == (self.spec_in_bounds(a, b) && !exists|k: int|
                        0 <= k < pos && (#[trigger] self.spec_fields()[k]).0 == a
                            && self.spec_fields()[k].1 == b
                            && !self.spec_fields()[k].2.spec_can_place_card(card)),
        {
            let (fi, fj, field) = self.fields[pos];
            let ghost prev = bitboard;
            if !field.can_place_card(card) {
                proof {
                    if self.spec_in_bounds(fi as int, fj as int) {
                    } else {
                        assert(self.spec_bbox().spec_contains(fi as int, fj as int));
                    }
                }
                bitboard = bitboard.remove(fi, fj);
            }
            proof {
                lemma_coord_unique_in_board(*self, pos as int);
                assert forall|a: int, b: int|
                    #![trigger bitboard.spec_contains(a, b)]
                    bitboard.spec_contains(a, b) == (self.spec_in_bounds(a, b) && !exists|k: int|
                        0 <= k < pos + 1 && (#[trigger] self.spec_fields()[k]).0 == a
                            && self.spec_fields()[k].1 == b
                            && !self.spec_fields()[k].2.spec_can_place_card(card)) by {
                    if exists|k: int|
                        0 <= k < pos + 1 && (#[trigger] self.spec_fields()[k]).0 == a
                            && self.spec_fields()[k].1 == b
                            && !self.spec_fields()[k].2.spec_can_place_card(card) {
                        let k = choose|k: int|
                            0 <= k < pos + 1 && (#[trigger] self.spec_fields()[k]).0 == a
                                && self.spec_fields()[k].1 == b
                                && !self.spec_fields()[k].2.spec_can_place_card(card);
                        if k < pos {
                            assert(!prev.spec_contains(a, b));
                        }
                    }
                }
            }
        }
        proof {
            assert forall|a: int, b: int|
                #![trigger bitboard.spec_contains(a, b)]
                bitboard.spec_contains(a, b) == (self.spec_in_bounds(a, b) && (self.spec_has_cell(
                    a,
                    b,
                ) ==> self.spec_cell(a, b).spec_can_place_card(card))) by {
                if self.spec_has_cell(a, b) {
                    lemma_cell_index_unique(*self, a, b);
                }
            }
        }
        bitboard
    }
}

/// Locations and placement are consistent: at any destination that
/// [`Board::locations_for_card`] reports (in bounds, and compatible with
/// whatever face-up card sits there), [`Board::calculate`] with no king
/// target can fail only for want of a king-ability target.
pub proof fn lemma_locations_allow_calculate(board: Board, ctp: CardToPlace, e: IllegalCardPlayed)
    requires
        board.wf(),
        ctp.target_field_for_king_ability is None,
        board.spec_in_bounds(ctp.i as int, ctp.j as int),
        board.spec_has_cell(ctp.i as int, ctp.j as int) ==> board.spec_cell(
            ctp.i as int,
            ctp.j as int,
        ).spec_can_place_card(ctp.card),
        board.spec_calc_err(ctp, e),
    ensures
        e == IllegalCardPlayed::NoTargetForKingAbility,
{
    match e {
        IllegalCardPlayed::OutOfBounds => {
            assert(false);
        },
        IllegalCardPlayed::IncompatibleCard { existing_card } => {
            assert(board.spec_has_cell(ctp.i as int, ctp.j as int));
            assert(false);
        },
        IllegalCardPlayed::NoTargetForKingAbility => {},
        IllegalCardPlayed::TargetForKingAbilityDoesNotExist { .. } => {
            assert(false);
        },
        IllegalCardPlayed::TargetForKingAbilityIsFaceDown { .. } => {
            assert(false);
        },
    }
}

/// Round trip: a board built from a well-formed, sorted field list hands
/// the very same list back. Stated over the contracts of [`Board::new`]
/// (relating `input` to `board`) and [`Board::to_fields_vec`] (relating
/// `board` to `output`).
pub proof fn lemma_fields_roundtrip(input: Seq<Field>, board: Board, output: Seq<Field>)
    requires
        forall|k: int| 0 <= k < input.len() ==> field_wf(#[trigger] input[k]),
        board.spec_fields().len() == input.len(),
        forall|k: int|
            0 <= k < input.len() ==> (#[trigger] board.spec_fields()[k]).0 == input[k].i
                && board.spec_fields()[k].1 == input[k].j
                && board.spec_fields()[k].2.spec_top_card() == input[k].top_card
                && board.spec_fields()[k].2.spec_hidden() == input[k].hidden_cards@.to_set(),
        output.len() == board.spec_fields().len(),
        forall|k: int|
            0 <= k < output.len() ==> {
                &&& (#[trigger] output[k]).i == board.spec_fields()[k].0
                &&& output[k].j == board.spec_fields()[k].1
                &&& output[k].top_card == board.spec_fields()[k].2.spec_top_card()
                &&& forall|c: Card|
                    output[k].hidden_cards@.contains(c)
                        == board.spec_fields()[k].2.spec_hidden().contains(c)
                &&& crate::protocol_types::cards_strictly_ascending(output[k].hidden_cards@)
            },
    ensures
        output.len() == input.len(),
        forall|k: int|
            0 <= k < input.len() ==> (#[trigger] output[k]).i == input[k].i && output[k].j
                == input[k].j && output[k].top_card == input[k].top_card
                && output[k].hidden_cards@ == input[k].hidden_cards@,
{
    assert forall|k: int|
        0 <= k < input.len() implies (#[trigger] output[k]).i == input[k].i && output[k].j
        == input[k].j && output[k].top_card == input[k].top_card && output[k].hidden_cards@
        == input[k].hidden_cards@ by {
        assert forall|c: Card|
            output[k].hidden_cards@.contains(c) == input[k].hidden_cards@.contains(c) by {
            assert(board.spec_fields()[k].2.spec_hidden().contains(c)
                == input[k].hidden_cards@.to_set().contains(c));
        }
        crate::protocol_types::lemma_ascending_same_members_equal(
            output[k].hidden_cards@,
            input[k].hidden_cards@,
        );
    }
}

/// Membership in a list after a push.
proof fn lemma_nfs_push(nfs: Seq<(i8, i8, CompactField)>, e: (i8, i8, CompactField), a: int, b: int)
    ensures
        nfs_has(nfs.push(e), a, b) == (nfs_has(nfs, a, b) || (a == e.0 && b == e.1)),
{
    if nfs_has(nfs.push(e), a, b) {
        let m = choose|m: int|
            0 <= m < nfs.push(e).len() && (#[trigger] nfs.push(e)[m]).0 == a && nfs.push(e)[m].1
                == b;
        if m < nfs.len() {
            assert(nfs[m] == nfs.push(e)[m]);
            assert(nfs_has(nfs, a, b));
        }
    }
    if nfs_has(nfs, a, b) {
        let m = choose|m: int|
            0 <= m < nfs.len() && (#[trigger] nfs[m]).0 == a && nfs[m].1 == b;
        assert(nfs.push(e)[m] == nfs[m]);
        assert(nfs_has(nfs.push(e), a, b));
    }
    if a == e.0 && b == e.1 {
        assert(nfs.push(e)[nfs.len() as int] == e);
        assert(nfs_has(nfs.push(e), a, b));
    }
}

/// Membership in a list after an insertion.
proof fn lemma_nfs_insert(
    nfs: Seq<(i8, i8, CompactField)>,
    idx: int,
    e: (i8, i8, CompactField),
    a: int,
    b: int,
)
    requires
        0 <= idx <= nfs.len(),
    ensures
        nfs_has(nfs.insert(idx, e), a, b) == (nfs_has(nfs, a, b) || (a == e.0 && b == e.1)),
{
    let s2 = nfs.insert(idx, e);
    if nfs_has(s2, a, b) {
        let m = choose|m: int|
            0 <= m < s2.len() && (#[trigger] s2[m]).0 == a && s2[m].1 == b;
        if m < idx {
            assert(s2[m] == nfs[m]);
            assert(nfs_has(nfs, a, b));
        } else if m > idx {
            assert(s2[m] == nfs[m - 1]);
            assert(nfs_has(nfs, a, b));
        }
    }
    if nfs_has(nfs, a, b) {
        let m = choose|m: int|
            0 <= m < nfs.len() && (#[trigger] nfs[m]).0 == a && nfs[m].1 == b;
        if m < idx {
            assert(s2[m] == nfs[m]);
        } else {
            assert(s2[m + 1] == nfs[m]);
        }
        assert(nfs_has(s2, a, b));
    }
    if a == e.0 && b == e.1 {
        assert(s2[idx] == e);
        assert(nfs_has(s2, a, b));
    }
}

/// How indices of an inserted-into list map back to the original.
proof fn lemma_insert_indexing(
    nfs: Seq<(i8, i8, CompactField)>,
    idx: int,
    e: (i8, i8, CompactField),
    m: int,
)
    requires
        0 <= idx <= nfs.len(),
        0 <= m < nfs.len() + 1,
    ensures
        m < idx ==> nfs.insert(idx, e)[m] == nfs[m],
        m == idx ==> nfs.insert(idx, e)[m] == e,
        m > idx ==> nfs.insert(idx, e)[m] == nfs[m - 1],
{
}

/// In a well-formed board, no other index shares the coordinates of
/// field `n`.
proof fn lemma_coord_unique_in_board(board: Board, n: int)
    requires
        board.wf(),
        0 <= n < board.spec_fields().len(),
    ensures
        forall|k: int|
            0 <= k < board.spec_fields().len() && k != n ==> !((
            #[trigger] board.spec_fields()[k]).0 == board.spec_fields()[n].0
                && board.spec_fields()[k].1 == board.spec_fields()[n].1),
{
    assert forall|k: int|
        0 <= k < board.spec_fields().len() && k != n implies !((
    #[trigger] board.spec_fields()[k]).0 == board.spec_fields()[n].0 && board.spec_fields()[k].1
        == board.spec_fields()[n].1) by {
        if k < n {
            assert(coord_lt(
                (board.spec_fields()[k].0 as int, board.spec_fields()[k].1 as int),
                (board.spec_fields()[n].0 as int, board.spec_fields()[n].1 as int),
            ));
        } else {
            assert(coord_lt(
                (board.spec_fields()[n].0 as int, board.spec_fields()[n].1 as int),
                (board.spec_fields()[k].0 as int, board.spec_fields()[k].1 as int),
            ));
        }
    }
}

/// The hidden cards a cell holds after the placement is applied.
pub open spec fn spec_result_hidden(board: Board, diff: Diff, a: int, b: int) -> Set<Card> {
    let placed_hidden = if a == diff.new_card_i && b == diff.new_card_j {
        opt_insert(board.spec_hidden_at(a, b), board.spec_top_at(a, b))
    } else {
        board.spec_hidden_at(a, b)
    };
    let placed_top = if a == diff.new_card_i && b == diff.new_card_j {
        Some(diff.new_card)
    } else {
        board.spec_top_at(a, b)
    };
    if diff.flipped.spec_contains(a, b) {
        opt_insert(placed_hidden, placed_top)
    } else {
        placed_hidden
    }
}

} // verus!
