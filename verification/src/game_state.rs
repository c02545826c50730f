//! Search-friendly game state for bots: a hand, a board, and a score
//! difference, with enumeration of candidate placements.

use vstd::prelude::*;

use crate::board::Board;
use crate::cards::Card;
use crate::cards::Rank;
use crate::cards_set::CardsSet;
use crate::protocol_types::field_wf;
use crate::protocol_types::CardToPlace;
use crate::protocol_types::Field;

verus! {

/// A bot-side snapshot of one player's situation mid-turn.
#[derive(Clone, Debug)]
pub struct GameState {
    /// The cards still playable this turn.
    pub cards: CardsSet,
    /// The board as it stands.
    pub board: Board,
    /// How many cards this line of play has won so far.
    pub score_delta: i32,
}

/// A placement every error condition of [`Board::calculate`] rules out:
/// in bounds, compatible with the destination's face-up card, and with
/// a resolvable king target where one is needed.
pub open spec fn spec_placement_ok(board: Board, ctp: CardToPlace) -> bool {
    &&& board.spec_in_bounds(ctp.i as int, ctp.j as int)
    &&& board.spec_placement_compatible(ctp)
    &&& board.spec_king_ok(ctp)
}

impl GameState {
    /// The state at the start of a turn: the hand, and the board built
    /// from the transmitted fields.
    pub fn initial(cards: [Card; 5], fields: Vec<Field>) -> (r: GameState)
        requires
            fields@.len() >= 1,
            forall|k: int| 0 <= k < fields@.len() ==> field_wf(#[trigger] fields@[k]),
            forall|k: int|
                0 <= k < fields@.len() ==> -52 <= (#[trigger] fields@[k]).i <= 52 && -52
                    <= fields@[k].j <= 52,
            forall|k1: int, k2: int|
                0 <= k1 < k2 < fields@.len() ==> crate::board::coord_lt(
                    ((#[trigger] fields@[k1]).i as int, fields@[k1].j as int),
                    ((#[trigger] fields@[k2]).i as int, fields@[k2].j as int),
                ),
            forall|k1: int, k2: int|
                0 <= k1 < fields@.len() && 0 <= k2 < fields@.len() ==> -3 <= (
                #[trigger] fields@[k1]).i - (#[trigger] fields@[k2]).i <= 3 && -3 <= fields@[k1].j
                    - fields@[k2].j <= 3,
        ensures
            r.board.wf(),
            r.score_delta == 0,
            forall|c: Card| r.cards@.contains(c) == cards@.contains(c),
    {
        let mut hand = CardsSet::new();
        for k in 0..5usize
            invariant
                forall|c: Card| hand@.contains(c) == cards@.subrange(0, k as int).contains(c),
        {
            let ghost prev = hand@;
            hand = hand.insert(cards[k]);
            proof {
                assert forall|c: Card|
                    hand@.contains(c) == cards@.subrange(0, k + 1).contains(c) by {
                    let sub1 = cards@.subrange(0, k + 1);
                    if hand@.contains(c) {
                        if prev.contains(c) {
                            let x = choose|x: int|
                                0 <= x < k && cards@.subrange(0, k as int)[x] == c;
                            assert(sub1[x] == c);
                        } else {
                            assert(sub1[k as int] == c);
                        }
                    }
                    if sub1.contains(c) {
                        let x = choose|x: int| 0 <= x <= k && sub1[x] == c;
                        if x < k {
                            assert(cards@.subrange(0, k as int)[x] == c);
                        }
                    }
                }
            }
        }
        proof {
            assert(cards@.subrange(0, 5) =~= cards@);
        }
        GameState { cards: hand, board: Board::new(&fields), score_delta: 0 }
    }

    /// Whether the turn is over: no card is left to play.
    pub fn is_terminal(&self) -> (r: bool)
        ensures
            r == self.cards@.is_empty(),
    {
        self.cards.is_empty()
    }

    /// The state after one legal placement: the card leaves the hand
    /// (or, when the placement was no combo, the turn ends and the hand
    /// empties), and the score grows by the number of cards won.
    pub fn apply_action(&self, ctp: CardToPlace) -> (r: GameState)
        requires
            self.board.wf(),
            spec_placement_ok(self.board, ctp),
            0 <= self.score_delta <= 1000000,
        ensures
            r.board.wf(),
            r.cards@ == if self.board.spec_has_cell(ctp.i as int, ctp.j as int) {
                self.cards@.remove(ctp.card)
            } else {
                Set::<Card>::empty()
            },
            self.score_delta <= r.score_delta <= self.score_delta + 64,
    {
        let calc = match self.board.calculate(ctp) {
            Ok(c) => c,
            Err(e) => {
                // A placement that satisfies the precondition rules out
                // every error variant of calculate.
                proof {
                    assert(false);
                }
                vstd::pervasive::unreached()
            },
        };
        let combo = calc.combo;
        let cards_won = calc.cards_won;
        let board = calc.execute(&self.board);
        let cards = if combo {
            self.cards.remove(ctp.card)
        } else {
            CardsSet::new()
        };
        let won_count = cards_won.len();
        GameState { cards, board, score_delta: self.score_delta + won_count as i32 }
    }

    /// All candidate placements of the remaining hand: every reported
    /// action names a held card, sits in the playable area, is
    /// compatible with its destination, and (for a king) aims at a
    /// face-up cell.
    pub fn possible_actions(&self) -> (r: Vec<CardToPlace>)
        requires
            self.board.wf(),
        ensures
            forall|m: int|
                0 <= m < r@.len() ==> self.cards@.contains((#[trigger] r@[m]).card)
                    && spec_placement_ok(self.board, r@[m]),
    {
        proof {
            assert(self.board.spec_bitboard(1).same_offset(self.board.spec_bitboard(0)));
            assert(self.board.spec_bitboard(2).same_offset(self.board.spec_bitboard(0)));
            assert(self.board.spec_bitboard(3).same_offset(self.board.spec_bitboard(0)));
        }
        let king_tgts = self.board.diamonds().union(self.board.hearts()).union(
            self.board.spades(),
        ).union(self.board.clubs());
        proof {
            assert forall|a: int, b: int|
                #![trigger king_tgts.spec_contains(a, b)]
                king_tgts.spec_contains(a, b) == (self.board.spec_top_at(a, b) is Some) by {
                assert(self.board.spec_bitboard(0).spec_contains(a, b)
                    == self.board.spec_suit_cell(0, a, b));
                assert(self.board.spec_bitboard(1).spec_contains(a, b)
                    == self.board.spec_suit_cell(1, a, b));
                assert(self.board.spec_bitboard(2).spec_contains(a, b)
                    == self.board.spec_suit_cell(2, a, b));
                assert(self.board.spec_bitboard(3).spec_contains(a, b)
                    == self.board.spec_suit_cell(3, a, b));
                match self.board.spec_top_at(a, b) {
                    Some(c) => {
                        assert(0 <= crate::cards::suit_index(c.suit) < 4);
                    },
                    None => {},
                }
            }
        }
        let hand = self.cards.to_vec();
        let mut out: Vec<CardToPlace> = Vec::new();
        let nh = hand.len();
        for ci in 0..nh
            invariant
                self.board.wf(),
                nh == hand@.len(),
                forall|x: int| 0 <= x < hand@.len() ==> self.cards@.contains(#[trigger] hand@[x]),
                forall|a: int, b: int|
                    #![trigger king_tgts.spec_contains(a, b)]
                    king_tgts.spec_contains(a, b) == (self.board.spec_top_at(a, b) is Some),
                forall|m: int|
                    0 <= m < out@.len() ==> self.cards@.contains((#[trigger] out@[m]).card)
                        && spec_placement_ok(self.board, out@[m]),
        {
            let card = hand[ci];
            let locs = self.board.locations_for_card(card).to_vec();
            let nl = locs.len();
            for li in 0..nl
                invariant
                    self.board.wf(),
                    nl == locs@.len(),
                    self.cards@.contains(card),
                    forall|x: int|
                        0 <= x < locs@.len() ==> self.board.spec_in_bounds(
                            (#[trigger] locs@[x]).0 as int,
                            locs@[x].1 as int,
                        ) && (self.board.spec_has_cell(locs@[x].0 as int, locs@[x].1 as int)
                            ==> self.board.spec_cell(
                            locs@[x].0 as int,
                            locs@[x].1 as int,
                        ).spec_can_place_card(card)),
                    forall|a: int, b: int|
                        #![trigger king_tgts.spec_contains(a, b)]
                        king_tgts.spec_contains(a, b) == (self.board.spec_top_at(a, b) is Some),
                    forall|m: int|
                        0 <= m < out@.len() ==> self.cards@.contains((#[trigger] out@[m]).card)
                            && spec_placement_ok(self.board, out@[m]),
            {
                let (loc_i, loc_j) = locs[li];
                let is_king = match card.rank {
                    Rank::King => true,
                    _ => false,
                };
                if is_king {
                    let tgts = king_tgts.to_vec();
                    let nt = tgts.len();
                    for ti in 0..nt
                        invariant
                            self.board.wf(),
                            nt == tgts@.len(),
                            self.cards@.contains(card),
                            card.rank == Rank::King,
                            self.board.spec_in_bounds(loc_i as int, loc_j as int),
                            self.board.spec_has_cell(loc_i as int, loc_j as int)
                                ==> self.board.spec_cell(
                                loc_i as int,
                                loc_j as int,
                            ).spec_can_place_card(card),
                            forall|x: int|
                                0 <= x < tgts@.len() ==> king_tgts.spec_contains(
                                    (#[trigger] tgts@[x]).0 as int,
                                    tgts@[x].1 as int,
                                ),
                            forall|a: int, b: int|
                                #![trigger king_tgts.spec_contains(a, b)]
                                king_tgts.spec_contains(a, b) == (self.board.spec_top_at(a, b)
                                    is Some),
                            forall|m: int|
                                0 <= m < out@.len() ==> self.cards@.contains(
                                    (#[trigger] out@[m]).card,
                                ) && spec_placement_ok(self.board, out@[m]),
                    {
                        let tgt = tgts[ti];
                        let ctp = CardToPlace {
                            card,
                            i: loc_i,
                            j: loc_j,
                            target_field_for_king_ability: Some(tgt),
                        };
                        let ghost prev_out = out@;
                        out.push(ctp);
                        proof {
                            assert(self.board.spec_top_at(tgt.0 as int, tgt.1 as int) is Some);
                            assert(self.board.spec_has_cell(tgt.0 as int, tgt.1 as int));
                            assert(spec_placement_ok(self.board, ctp));
                            assert forall|m: int|
                                0 <= m < out@.len() implies self.cards@.contains(
                                (#[trigger] out@[m]).card,
                            ) && spec_placement_ok(self.board, out@[m]) by {
                                if m < prev_out.len() {
                                    assert(out@[m] == prev_out[m]);
                                }
                            }
                        }
                    }
                } else {
                    let ctp = CardToPlace {
                        card,
                        i: loc_i,
                        j: loc_j,
                        target_field_for_king_ability: None,
                    };
                    let ghost prev_out = out@;
                    out.push(ctp);
                    proof {
                        assert(spec_placement_ok(self.board, ctp));
                        assert forall|m: int|
                            0 <= m < out@.len() implies self.cards@.contains(
                            (#[trigger] out@[m]).card,
                        ) && spec_placement_ok(self.board, out@[m]) by {
                            if m < prev_out.len() {
                                assert(out@[m] == prev_out[m]);
                            }
                        }
                    }
                }
            }
        }
        out
    }
}

/// Every place where one of the given cards may be put on the board.
/// Each reported triple names one of the cards and a destination that is
/// in bounds and compatible with it.
pub fn possible_card_placements(board: &Board, cards: &CardsSet) -> (r: Vec<(i8, i8, Card)>)
    requires
        board.wf(),
    ensures
        forall|m: int|
            0 <= m < r@.len() ==> cards@.contains((#[trigger] r@[m]).2) && board.spec_in_bounds(
                r@[m].0 as int,
                r@[m].1 as int,
            ) && (board.spec_has_cell(r@[m].0 as int, r@[m].1 as int) ==> board.spec_cell(
                r@[m].0 as int,
                r@[m].1 as int,
            ).spec_can_place_card(r@[m].2)),
{
    let hand = cards.to_vec();
    let mut moves: Vec<(i8, i8, Card)> = Vec::new();
    let nh = hand.len();
    for ci in 0..nh
        invariant
            board.wf(),
            nh == hand@.len(),
            forall|x: int| 0 <= x < hand@.len() ==> cards@.contains(#[trigger] hand@[x]),
            forall|m: int|
                0 <= m < moves@.len() ==> cards@.contains((#[trigger] moves@[m]).2)
                    && board.spec_in_bounds(moves@[m].0 as int, moves@[m].1 as int) && (
                board.spec_has_cell(moves@[m].0 as int, moves@[m].1 as int) ==> board.spec_cell(
                    moves@[m].0 as int,
                    moves@[m].1 as int,
                ).spec_can_place_card(moves@[m].2)),
    {
        let card = hand[ci];
        let locs = board.locations_for_card(card).to_vec();
        let nl = locs.len();
        for li in 0..nl
            invariant
                board.wf(),
                nl == locs@.len(),
                cards@.contains(card),
                forall|x: int|
                    0 <= x < locs@.len() ==> board.spec_in_bounds(
                        (#[trigger] locs@[x]).0 as int,
                        locs@[x].1 as int,
                    ) && (board.spec_has_cell(locs@[x].0 as int, locs@[x].1 as int)
                        ==> board.spec_cell(locs@[x].0 as int, locs@[x].1 as int).spec_can_place_card(
                        card,
                    )),
                forall|m: int|
                    0 <= m < moves@.len() ==> cards@.contains((#[trigger] moves@[m]).2)
                        && board.spec_in_bounds(moves@[m].0 as int, moves@[m].1 as int) && (
                    board.spec_has_cell(moves@[m].0 as int, moves@[m].1 as int)
                        ==> board.spec_cell(
                        moves@[m].0 as int,
                        moves@[m].1 as int,
                    ).spec_can_place_card(moves@[m].2)),
        {
            let (loc_i, loc_j) = locs[li];
            let ghost prev = moves@;
            moves.push((loc_i, loc_j, card));
            proof {
                assert forall|m: int|
                    0 <= m < moves@.len() implies cards@.contains((#[trigger] moves@[m]).2)
                    && board.spec_in_bounds(moves@[m].0 as int, moves@[m].1 as int) && (
                board.spec_has_cell(moves@[m].0 as int, moves@[m].1 as int) ==> board.spec_cell(
                    moves@[m].0 as int,
                    moves@[m].1 as int,
                ).spec_can_place_card(moves@[m].2)) by {
                    if m < prev.len() {
                        assert(moves@[m] == prev[m]);
                    }
                }
            }
        }
    }
    moves
}

} // verus!
