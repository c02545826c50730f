//! Plain data records exchanged with the surrounding process: fields,
//! placement requests, and turn responses.

use vstd::prelude::*;

use crate::cards::card_index;
use crate::cards::Card;

verus! {

/// Request for a bot to do something.
#[derive(Clone, Debug)]
pub enum Request {
    /// Request to reset the bot's state for a new game.
    NewGame { color: Color },
    /// Request to play the first turn. The card named in the response is
    /// placed at the coordinates `(0, 0)`.
    PlayFirstTurn { cards: [Card; 5] },
    /// Request to play the next turn on the given board.
    PlayTurn { cards: [Card; 5], fields: Vec<Field> },
    /// The bot should shut down.
    Bye,
}

/// Dummy struct for use in bot communication: an acknowledgement
/// without data.
#[derive(Clone, Debug)]
pub struct Okay();

/// The half of the deck a player draws from.
#[derive(Clone, Copy, Debug, PartialEq, Eq, Structural)]
pub enum Color {
    /// The clubs and spades.
    Black,
    /// The diamonds and hearts.
    Red,
}

/// A single field on the board, including coordinates.
#[derive(Clone, Debug)]
pub struct Field {
    /// The first coordinate.
    pub i: i8,
    /// The second coordinate.
    pub j: i8,
    /// The face-up card, if any. `None` when the top card has been
    /// flipped face-down.
    pub top_card: Option<Card>,
    /// The cards below the top card, by ascending card index.
    pub hidden_cards: Vec<Card>,
}

/// Whether a card list is strictly ascending by card index (and hence
/// free of duplicates).
pub open spec fn cards_strictly_ascending(s: Seq<Card>) -> bool {
    forall|i: int, j: int| 0 <= i < j < s.len() ==> card_index(s[i]) < card_index(s[j])
}

/// A well-formed field: normalized hidden cards, at least one card, and
/// the face-up card not also among the hidden ones.
pub open spec fn field_wf(f: Field) -> bool {
    &&& cards_strictly_ascending(f.hidden_cards@)
    &&& (f.top_card is Some || f.hidden_cards@.len() > 0)
    &&& (match f.top_card {
        Some(c) => !f.hidden_cards@.contains(c),
        None => true,
    })
}

/// Two strictly ascending card lists with the same members are equal.
pub proof fn lemma_ascending_same_members_equal(s1: Seq<Card>, s2: Seq<Card>)
    requires
        cards_strictly_ascending(s1),
        cards_strictly_ascending(s2),
        forall|c: Card| s1.contains(c) == s2.contains(c),
    ensures
        s1 == s2,
    decreases s1.len(),
{
    if s1.len() == 0 {
        if s2.len() > 0 {
            assert(s2.contains(s2[0]));
            assert(s1.contains(s2[0]));
        }
        assert(s1 =~= s2);
    } else {
        assert(s1.contains(s1[0]));
        assert(s2.contains(s1[0]));
        if s2.len() == 0 {
            assert(false);
        }
        let m = choose|m: int| 0 <= m < s2.len() && s2[m] == s1[0];
        assert(s2.contains(s2[0]));
        assert(s1.contains(s2[0]));
        let k = choose|k: int| 0 <= k < s1.len() && s1[k] == s2[0];
        assert(card_index(s2[0]) <= card_index(s2[m]));
        assert(card_index(s1[0]) <= card_index(s1[k]));
        assert(card_index(s1[0]) == card_index(s2[0]));
        crate::cards::lemma_card_index_injective(s1[0], s2[0]);
        let t1 = s1.subrange(1, s1.len() as int);
        let t2 = s2.subrange(1, s2.len() as int);
        assert forall|c: Card| t1.contains(c) == (s1.contains(c) && c != s1[0]) by {
            if t1.contains(c) {
                let p = choose|p: int| 0 <= p < t1.len() && t1[p] == c;
                assert(s1[p + 1] == c);
                assert(card_index(s1[0]) < card_index(s1[p + 1]));
            }
            if s1.contains(c) && c != s1[0] {
                let p = choose|p: int| 0 <= p < s1.len() && s1[p] == c;
                if p == 0 {
                    assert(false);
                }
                assert(t1[p - 1] == c);
            }
        }
        assert forall|c: Card| t2.contains(c) == (s2.contains(c) && c != s2[0]) by {
            if t2.contains(c) {
                let p = choose|p: int| 0 <= p < t2.len() && t2[p] == c;
                assert(s2[p + 1] == c);
                assert(card_index(s2[0]) < card_index(s2[p + 1]));
            }
            if s2.contains(c) && c != s2[0] {
                let p = choose|p: int| 0 <= p < s2.len() && s2[p] == c;
                if p == 0 {
                    assert(false);
                }
                assert(t2[p - 1] == c);
            }
        }
        assert forall|x: int, y: int|
            0 <= x < y < t1.len() implies card_index(#[trigger] t1[x]) < card_index(
            #[trigger] t1[y],
        ) by {
            assert(t1[x] == s1[x + 1]);
            assert(t1[y] == s1[y + 1]);
        }
        assert forall|x: int, y: int|
            0 <= x < y < t2.len() implies card_index(#[trigger] t2[x]) < card_index(
            #[trigger] t2[y],
        ) by {
            assert(t2[x] == s2[x + 1]);
            assert(t2[y] == s2[y + 1]);
        }
        lemma_ascending_same_members_equal(t1, t2);
        assert forall|k: int| 0 <= k < s1.len() implies s1[k] == s2[k] by {
            if k >= 1 {
                assert(s1[k] == t1[k - 1]);
                assert(s2[k] == t2[k - 1]);
            }
        }
        assert(s1 =~= s2);
    }
}

/// Specifies which card to play, and where.
#[derive(Copy, Clone, Debug)]
pub struct CardToPlace {
    pub card: Card,
    pub i: i8,
    pub j: i8,
    /// If a king is played on top of another card, this coordinate pair
    /// names the field to flip face-down.
    pub target_field_for_king_ability: Option<(i8, i8)>,
}

/// The cards to play in this turn, in order.
#[derive(Clone, Debug)]
pub struct PlayTurnResponse(pub Vec<CardToPlace>);

} // verus!
