//! A dense board representation: one array slot for every cell of the
//! playable area, with index-set bookkeeping for flips and captures.

use vstd::prelude::*;

use crate::bitops::bit64;
use crate::bitops::lemma_bit_clear_mask;
use crate::bitops::lemma_bit_or_mask;
use crate::bitops::lemma_bit_test;
use crate::bitops::lemma_zero_no_bits;
use crate::cards::spec_can_be_placed_on;
use crate::cards::Card;
use crate::cards::Rank;
use crate::compact_field::CompactField;
use crate::errors::IllegalCardPlayed;
use crate::protocol_types::cards_strictly_ascending;
use crate::protocol_types::field_wf;
use crate::protocol_types::CardToPlace;
use crate::protocol_types::Field;

verus! {

/// A board that stores every cell a card may be placed on, in an
/// `size_i` x `size_j` grid in row-major order. The grid covers the
/// playable area, so it can be up to 7 x 7.
#[derive(Clone, Debug)]
pub struct DenseBoard {
    arr: Vec<CompactField>,
    size_i: usize,
    size_j: usize,
    offset_i: i8,
    offset_j: i8,
}

impl DenseBoard {
    /// The grid's cells, in row-major order.
    pub closed spec fn spec_arr(self) -> Seq<CompactField> {
        self.arr@
    }

    /// The number of grid rows.
    pub closed spec fn spec_size_i(self) -> int {
        self.size_i as int
    }

    /// The number of grid columns.
    pub closed spec fn spec_size_j(self) -> int {
        self.size_j as int
    }

    /// The `i` coordinate of the grid's first row.
    pub closed spec fn spec_offset_i(self) -> int {
        self.offset_i as int
    }

    /// The `j` coordinate of the grid's first column.
    pub closed spec fn spec_offset_j(self) -> int {
        self.offset_j as int
    }

    /// Whether the coordinate has a grid slot.
    pub open spec fn spec_in_grid(self, a: int, b: int) -> bool {
        &&& self.spec_offset_i() <= a < self.spec_offset_i() + self.spec_size_i()
        &&& self.spec_offset_j() <= b < self.spec_offset_j() + self.spec_size_j()
    }

    /// The row-major slot index of an in-grid coordinate.
    pub open spec fn spec_idx(self, a: int, b: int) -> int {
        (a - self.spec_offset_i()) * self.spec_size_j() + (b - self.spec_offset_j())
    }

    /// The cell at an in-grid coordinate.
    pub open spec fn spec_cell_at(self, a: int, b: int) -> CompactField {
        self.spec_arr()[self.spec_idx(a, b)]
    }

    /// Well-formedness: a plausible grid shape within the supported
    /// coordinate range.
    pub open spec fn wf(self) -> bool {
        &&& 1 <= self.spec_size_i() <= 7
        &&& 1 <= self.spec_size_j() <= 7
        &&& self.spec_arr().len() == self.spec_size_i() * self.spec_size_j()
        &&& -55 <= self.spec_offset_i()
        &&& self.spec_offset_i() + self.spec_size_i() <= 56
        &&& -55 <= self.spec_offset_j()
        &&& self.spec_offset_j() + self.spec_size_j() <= 56
    }
}

/// The slot index of an in-grid coordinate determines the coordinate.
proof fn lemma_grid_idx(board: DenseBoard, a: int, b: int)
    requires
        board.wf(),
        board.spec_in_grid(a, b),
    ensures
        0 <= board.spec_idx(a, b) < board.spec_arr().len(),
        forall|a2: int, b2: int|
            board.spec_in_grid(a2, b2) && board.spec_idx(a2, b2) == board.spec_idx(a, b) ==> a2
                == a && b2 == b,
{
    let da = a - board.spec_offset_i();
    let db = b - board.spec_offset_j();
    let sj = board.spec_size_j();
    assert(da * sj + db < board.spec_size_i() * sj) by (nonlinear_arith)
        requires
            0 <= da < board.spec_size_i() && 0 <= db < sj && 1 <= sj,
    ;
    assert(0 <= da * sj) by (nonlinear_arith)
        requires
            0 <= da && 0 <= sj,
    ;
    assert forall|a2: int, b2: int|
        board.spec_in_grid(a2, b2) && board.spec_idx(a2, b2) == board.spec_idx(a, b) implies a2
        == a && b2 == b by {
        let da2 = a2 - board.spec_offset_i();
        let db2 = b2 - board.spec_offset_j();
        assert(da2 == da && db2 == db) by (nonlinear_arith)
            requires
                da2 * sj + db2 == da * sj + db && 0 <= da2 && 0 <= da && 0 <= db2 < sj && 0 <= db
                    < sj,
        ;
    }
}

impl DenseBoard {
    /// Creates a new board from a non-empty list of well-formed fields,
    /// sorted by `(i, j)`, which must fit in a 4 x 4 box within the
    /// supported coordinate range. The grid covers the playable area.
    #[verifier::rlimit(100)]
    pub fn new(fields: &Vec<Field>) -> (r: DenseBoard)
        requires
            fields@.len() >= 1,
            forall|k: int| 0 <= k < fields@.len() ==> field_wf(#[trigger] fields@[k]),
            forall|k: int|
                0 <= k < fields@.len() ==> -52 <= (#[trigger] fields@[k]).i <= 52 && -52
                    <= fields@[k].j <= 52,
            forall|k1: int, k2: int|
                0 <= k1 < k2 < fields@.len() ==> crate::board::coord_lt(
                    ((#[trigger] fields@[k1]).i as int, fields@[k1].j as int),
                    ((#[trigger] fields@[k2]).i as int, fields@[k2].j as int),
                ),
            forall|k1: int, k2: int|
                0 <= k1 < fields@.len() && 0 <= k2 < fields@.len() ==> -3 <= (
                #[trigger] fields@[k1]).i - (#[trigger] fields@[k2]).i <= 3 && -3 <= fields@[k1].j
                    - fields@[k2].j <= 3,
        ensures
            r.wf(),
            forall|k: int|
                0 <= k < fields@.len() ==> r.spec_in_grid(
                    (#[trigger] fields@[k]).i as int,
                    fields@[k].j as int,
                ),
            forall|k: int|
                0 <= k < fields@.len() ==> {
                    let cell = r.spec_cell_at((#[trigger] fields@[k]).i as int, fields@[k].j as int);
                    cell.spec_top_card() == fields@[k].top_card && cell.spec_hidden()
                        == fields@[k].hidden_cards@.to_set()
                },
            forall|a: int, b: int|
                r.spec_in_grid(a, b) && !(exists|k: int|
                    0 <= k < fields@.len() && (#[trigger] fields@[k]).i == a && fields@[k].j
                        == b) ==> {
                    let cell = #[trigger] r.spec_cell_at(a, b);
                    cell.spec_top_card() is None && cell.spec_hidden() == Set::<Card>::empty()
                },
    {
        let mut i_min = fields[0].i;
        let mut i_max = fields[0].i;
        let mut j_min = fields[0].j;
        let mut j_max = fields[0].j;
        let n = fields.len();
        for pos in 0..n
            invariant
                n == fields@.len(),
                n >= 1,
                forall|k: int|
                    0 <= k < fields@.len() ==> -52 <= (#[trigger] fields@[k]).i <= 52 && -52
                        <= fields@[k].j <= 52,
                forall|k1: int, k2: int|
                    0 <= k1 < fields@.len() && 0 <= k2 < fields@.len() ==> -3 <= (
                    #[trigger] fields@[k1]).i - (#[trigger] fields@[k2]).i <= 3 && -3
                        <= fields@[k1].j - fields@[k2].j <= 3,
                -52 <= i_min <= 52 && -52 <= i_max <= 52,
                -52 <= j_min <= 52 && -52 <= j_max <= 52,
                i_min <= i_max && i_max - i_min <= 3,
                j_min <= j_max && j_max - j_min <= 3,
                exists|k: int| 0 <= k < fields@.len() && (#[trigger] fields@[k]).i == i_min,
                exists|k: int| 0 <= k < fields@.len() && (#[trigger] fields@[k]).i == i_max,
                exists|k: int| 0 <= k < fields@.len() && (#[trigger] fields@[k]).j == j_min,
                exists|k: int| 0 <= k < fields@.len() && (#[trigger] fields@[k]).j == j_max,
                forall|k: int|
                    0 <= k < pos ==> i_min <= (#[trigger] fields@[k]).i <= i_max && j_min
                        <= fields@[k].j <= j_max,
        {
            let f = &fields[pos];
            if f.i < i_min {
                i_min = f.i;
            }
            if f.i > i_max {
                i_max = f.i;
            }
            if f.j < j_min {
                j_min = f.j;
            }
            if f.j > j_max {
                j_max = f.j;
            }
        }
        let mut board = DenseBoard::new_aux(i_min, i_max, j_min, j_max);
        proof {
            assert forall|a: int, b: int|
                board.spec_in_grid(a, b) implies ((#[trigger] board.spec_cell_at(
                a,
                b,
            )).spec_top_card() is None && board.spec_cell_at(a, b).spec_hidden() == Set::<
                Card,
            >::empty()) by {
                lemma_grid_idx(board, a, b);
            }
        }
        for pos in 0..n
            invariant
                n == fields@.len(),
                board.wf(),
                -52 <= i_min <= i_max <= 52,
                -52 <= j_min <= j_max <= 52,
                i_max - i_min <= 3,
                j_max - j_min <= 3,
                board.spec_offset_i() == i_max - 3,
                board.spec_offset_j() == j_max - 3,
                board.spec_size_i() == 7 - (i_max - i_min),
                board.spec_size_j() == 7 - (j_max - j_min),
                forall|k: int| 0 <= k < fields@.len() ==> field_wf(#[trigger] fields@[k]),
                forall|k: int|
                    0 <= k < fields@.len() ==> i_min <= (#[trigger] fields@[k]).i <= i_max
                        && j_min <= fields@[k].j <= j_max,
                forall|k1: int, k2: int|
                    0 <= k1 < k2 < fields@.len() ==> crate::board::coord_lt(
                        ((#[trigger] fields@[k1]).i as int, fields@[k1].j as int),
                        ((#[trigger] fields@[k2]).i as int, fields@[k2].j as int),
                    ),
                forall|k: int|
                    0 <= k < pos ==> {
                        let cell = board.spec_cell_at(
                            (#[trigger] fields@[k]).i as int,
                            fields@[k].j as int,
                        );
                        cell.spec_top_card() == fields@[k].top_card && cell.spec_hidden()
                            == fields@[k].hidden_cards@.to_set()
                    },
                forall|a: int, b: int|
                    board.spec_in_grid(a, b) && !(exists|k: int|
                        0 <= k < pos && (#[trigger] fields@[k]).i == a && fields@[k].j == b)
                        ==> {
                        let cell = #[trigger] board.spec_cell_at(a, b);
                        cell.spec_top_card() is None && cell.spec_hidden() == Set::<
                            Card,
                        >::empty()
                    },
        {
            let f = &fields[pos];
            proof {
                assert(board.spec_in_grid(f.i as int, f.j as int));
                lemma_grid_idx(board, f.i as int, f.j as int);
            }
            let idx = board.arr_idx_checked(f.i, f.j).unwrap();
            let cf = CompactField::from_field(f);
            let ghost prev = board;
            board.arr.set(idx, cf);
            proof {
                crate::board::lemma_coord_unique_in_sorted(fields@, pos as int);
                assert forall|k: int| 0 <= k <= pos implies {
                    let cell = board.spec_cell_at(
                        (#[trigger] fields@[k]).i as int,
                        fields@[k].j as int,
                    );
                    cell.spec_top_card() == fields@[k].top_card && cell.spec_hidden()
                        == fields@[k].hidden_cards@.to_set()
                } by {
                    if k < pos {
                        lemma_grid_idx(board, fields@[k].i as int, fields@[k].j as int);
                        if board.spec_idx(fields@[k].i as int, fields@[k].j as int) == idx {
                            assert(fields@[k].i == f.i && fields@[k].j == f.j);
                        }
                    }
                }
                assert forall|a: int, b: int|
                    board.spec_in_grid(a, b) && !(exists|k: int|
                        0 <= k <= pos && (#[trigger] fields@[k]).i == a && fields@[k].j == b)
                        implies {
                    let cell = #[trigger] board.spec_cell_at(a, b);
                    cell.spec_top_card() is None && cell.spec_hidden() == Set::<Card>::empty()
                } by {
                    lemma_grid_idx(board, a, b);
                    if board.spec_idx(a, b) == idx {
                        assert(fields@[pos as int].i == a && fields@[pos as int].j == b);
                    } else {
                        assert(!(exists|k: int|
                            0 <= k < pos && (#[trigger] fields@[k]).i == a && fields@[k].j
                                == b));
                        assert(prev.spec_cell_at(a, b) == board.spec_cell_at(a, b));
                    }
                }
            }
        }
        board
    }

    /// An empty grid covering the playable area of a board whose cards
    /// span the given coordinate ranges.
    fn new_aux(i_min: i8, i_max: i8, j_min: i8, j_max: i8) -> (r: DenseBoard)
        requires
            -52 <= i_min <= i_max <= 52,
            -52 <= j_min <= j_max <= 52,
            i_max - i_min <= 6,
            j_max - j_min <= 6,
        ensures
            r.wf(),
            r.spec_offset_i() == i_max - 3,
            r.spec_offset_j() == j_max - 3,
            r.spec_size_i() == 7 - (i_max - i_min),
            r.spec_size_j() == 7 - (j_max - j_min),
            forall|k: int|
                0 <= k < r.spec_arr().len() ==> (#[trigger] r.spec_arr()[k]).spec_top_card()
                    is None && r.spec_arr()[k].spec_hidden() == Set::<Card>::empty(),
    {
        let min_i_possible = i_max - 3;
        let min_j_possible = j_max - 3;
        let max_i_possible = i_min + 3;
        let max_j_possible = j_min + 3;
        let size_i = (max_i_possible - min_i_possible + 1) as usize;
        let size_j = (max_j_possible - min_j_possible + 1) as usize;
        proof {
            assert(size_i * size_j <= 49) by (nonlinear_arith)
                requires
                    1 <= size_i <= 7 && 1 <= size_j <= 7,
            ;
        }
        let mut arr: Vec<CompactField> = Vec::new();
        let total = size_i * size_j;
        for k in 0..total
            invariant
                arr@.len() == k,
                forall|m: int|
                    0 <= m < arr@.len() ==> (#[trigger] arr@[m]).spec_top_card() is None
                        && arr@[m].spec_hidden() == Set::<Card>::empty(),
        {
            arr.push(CompactField::new());
        }
        DenseBoard {
            arr,
            size_i,
            size_j,
            offset_i: min_i_possible,
            offset_j: min_j_possible,
        }
    }

    /// The slot index of the coordinate, when it lies in the grid.
    fn arr_idx_checked(&self, a: i8, b: i8) -> (r: Option<usize>)
        requires
            self.wf(),
        ensures
            match r {
                Some(idx) => self.spec_in_grid(a as int, b as int) && idx == self.spec_idx(
                    a as int,
                    b as int,
                ) && idx < self.spec_arr().len(),
                None => !self.spec_in_grid(a as int, b as int),
            },
    {
        let da = (a as i16) - (self.offset_i as i16);
        let db = (b as i16) - (self.offset_j as i16);
        if da < 0 || db < 0 || da >= self.size_i as i16 || db >= self.size_j as i16 {
            return None;
        }
        proof {
            lemma_grid_idx(*self, a as int, b as int);
            assert((da as int) * (self.size_j as int) + (db as int) <= 48) by (nonlinear_arith)
                requires
                    0 <= da as int,
                    (da as int) < 7,
                    0 <= db as int,
                    (db as int) < self.size_j as int,
                    (self.size_j as int) <= 7,
            ;
        }
        Some((da as usize) * self.size_j + (db as usize))
    }

    /// Returns the cell at the coordinate, when it has a grid slot.
    pub fn get(&self, a: i8, b: i8) -> (r: Option<CompactField>)
        requires
            self.wf(),
        ensures
            match r {
                Some(cf) => self.spec_in_grid(a as int, b as int) && cf == self.spec_cell_at(
                    a as int,
                    b as int,
                ),
                None => !self.spec_in_grid(a as int, b as int),
            },
    {
        match self.arr_idx_checked(a, b) {
            Some(idx) => Some(self.arr[idx]),
            None => None,
        }
    }

    /// The grid's cells with their coordinates, in row-major order
    /// (empty slots included).
    pub fn fields(&self) -> (r: Vec<(i8, i8, CompactField)>)
        requires
            self.wf(),
        ensures
            r@.len() == self.spec_arr().len(),
            forall|m: int|
                0 <= m < r@.len() ==> {
                    &&& (#[trigger] r@[m]).0 == self.spec_offset_i() + m / self.spec_size_j()
                    &&& r@[m].1 == self.spec_offset_j() + m % self.spec_size_j()
                    &&& r@[m].2 == self.spec_arr()[m]
                },
    {
        let mut out: Vec<(i8, i8, CompactField)> = Vec::new();
        let total = self.arr.len();
        proof {
            assert(self.spec_size_i() * self.spec_size_j() <= 49) by (nonlinear_arith)
                requires
                    1 <= self.spec_size_i() <= 7 && 1 <= self.spec_size_j() <= 7,
            ;
        }
        for m in 0..total
            invariant
                self.wf(),
                total == self.spec_arr().len(),
                total <= 49,
                out@.len() == m,
                forall|x: int|
                    0 <= x < out@.len() ==> {
                        &&& (#[trigger] out@[x]).0 == self.spec_offset_i() + x
                            / self.spec_size_j()
                        &&& out@[x].1 == self.spec_offset_j() + x % self.spec_size_j()
                        &&& out@[x].2 == self.spec_arr()[x]
                    },
        {
            let a = self.offset_i + (m / self.size_j) as i8;
            let b = self.offset_j + (m % self.size_j) as i8;
            proof {
                assert(0 <= (m as int) / self.spec_size_j() < 7) by (nonlinear_arith)
                    requires
                        0 <= m as int,
                        (m as int) < self.spec_size_i() * self.spec_size_j(),
                        1 <= self.spec_size_i() <= 7,
                        1 <= self.spec_size_j() <= 7,
                ;
            }
            out.push((a, b, self.arr[m]));
        }
        out
    }

    /// The non-empty cells as plain field records, sorted by `(i, j)`.
    #[verifier::rlimit(100)]
    pub fn to_fields_vec(&self) -> (r: Vec<Field>)
        requires
            self.wf(),
        ensures
            forall|m: int|
                0 <= m < r@.len() ==> {
                    let f = #[trigger] r@[m];
                    &&& self.spec_in_grid(f.i as int, f.j as int)
                    &&& f.top_card == self.spec_cell_at(f.i as int, f.j as int).spec_top_card()
                    &&& forall|c: Card|
                        f.hidden_cards@.contains(c) == self.spec_cell_at(
                            f.i as int,
                            f.j as int,
                        ).spec_hidden().contains(c)
                    &&& cards_strictly_ascending(f.hidden_cards@)
                },
            forall|m1: int, m2: int|
                0 <= m1 < m2 < r@.len() ==> crate::board::coord_lt(
                    ((#[trigger] r@[m1]).i as int, r@[m1].j as int),
                    ((#[trigger] r@[m2]).i as int, r@[m2].j as int),
                ),
            forall|a: int, b: int|
                #![trigger self.spec_idx(a, b)]
                self.spec_in_grid(a, b) && !self.spec_slot_empty(a, b) ==> exists|m: int|
                    0 <= m < r@.len() && (#[trigger] r@[m]).i == a && r@[m].j == b,
    {
        let cells = self.fields();
        let mut out: Vec<Field> = Vec::new();
        let total = cells.len();
        for m in 0..total
            invariant
                self.wf(),
                total == cells@.len(),
                cells@.len() == self.spec_arr().len(),
                forall|x: int|
                    0 <= x < cells@.len() ==> {
                        &&& (#[trigger] cells@[x]).0 == self.spec_offset_i() + x
                            / self.spec_size_j()
                        &&& cells@[x].1 == self.spec_offset_j() + x % self.spec_size_j()
                        &&& cells@[x].2 == self.spec_arr()[x]
                    },
                forall|x: int|
                    0 <= x < out@.len() ==> {
                        let f = #[trigger] out@[x];
                        &&& self.spec_in_grid(f.i as int, f.j as int)
                        &&& f.top_card == self.spec_cell_at(
                            f.i as int,
                            f.j as int,
                        ).spec_top_card()
                        &&& forall|c: Card|
                            f.hidden_cards@.contains(c) == self.spec_cell_at(
                                f.i as int,
                                f.j as int,
                            ).spec_hidden().contains(c)
                        &&& cards_strictly_ascending(f.hidden_cards@)
                    },
                forall|x1: int, x2: int|
                    0 <= x1 < x2 < out@.len() ==> crate::board::coord_lt(
                        ((#[trigger] out@[x1]).i as int, out@[x1].j as int),
                        ((#[trigger] out@[x2]).i as int, out@[x2].j as int),
                    ),
                forall|x: int|
                    0 <= x < out@.len() ==> self.spec_idx(
                        (#[trigger] out@[x]).i as int,
                        out@[x].j as int,
                    ) < m,
                forall|a: int, b: int|
                    #![trigger self.spec_idx(a, b)]
                    self.spec_in_grid(a, b) && self.spec_idx(a, b) < m && !self.spec_slot_empty(
                        a,
                        b,
                    ) ==> exists|x: int|
                        0 <= x < out@.len() && (#[trigger] out@[x]).i == a && out@[x].j == b,
        {
            let (a, b, cf) = cells[m];
            proof {
                assert(0 <= (m as int) / self.spec_size_j() && (m as int) / self.spec_size_j()
                    < self.spec_size_i() && 0 <= (m as int) % self.spec_size_j() && (m as int)
                    % self.spec_size_j() < self.spec_size_j()) by (nonlinear_arith)
                    requires
                        0 <= m as int,
                        (m as int) < self.spec_size_i() * self.spec_size_j(),
                        1 <= self.spec_size_i() <= 7,
                        1 <= self.spec_size_j() <= 7,
                ;
                assert(self.spec_in_grid(a as int, b as int));
                lemma_grid_idx(*self, a as int, b as int);
                assert(self.spec_idx(a as int, b as int) == m) by (nonlinear_arith)
                    requires
                        a as int == self.spec_offset_i() + (m as int) / self.spec_size_j(),
                        b as int == self.spec_offset_j() + (m as int) % self.spec_size_j(),
                        0 <= m as int,
                        (m as int) < self.spec_size_i() * self.spec_size_j(),
                        1 <= self.spec_size_i() <= 7,
                        1 <= self.spec_size_j() <= 7,
                        self.spec_idx(a as int, b as int) == (a as int - self.spec_offset_i())
                            * self.spec_size_j() + (b as int - self.spec_offset_j()),
                ;
            }
            if !cf.is_empty() {
                let ghost prev = out@;
                out.push(cf.into_field(a, b));
                proof {
                    assert forall|x1: int, x2: int|
                        0 <= x1 < x2 < out@.len() implies crate::board::coord_lt(
                        ((#[trigger] out@[x1]).i as int, out@[x1].j as int),
                        ((#[trigger] out@[x2]).i as int, out@[x2].j as int),
                    ) by {
                        if x2 == prev.len() {
                            assert(out@[x1] == prev[x1]);
                            let i1 = self.spec_idx(out@[x1].i as int, out@[x1].j as int);
                            assert(i1 < m);
                            lemma_idx_order(
                                *self,
                                out@[x1].i as int,
                                out@[x1].j as int,
                                a as int,
                                b as int,
                            );
                        } else {
                            assert(out@[x1] == prev[x1]);
                            assert(out@[x2] == prev[x2]);
                        }
                    }
                    assert forall|x: int, y: int|
                        #![trigger self.spec_idx(x, y)]
                        self.spec_in_grid(x, y) && self.spec_idx(x, y) < m + 1
                            && !self.spec_slot_empty(x, y) implies exists|w: int|
                        0 <= w < out@.len() && (#[trigger] out@[w]).i == x && out@[w].j == y by {
                        lemma_grid_idx(*self, x, y);
                        if self.spec_idx(x, y) < m {
                            let w = choose|w: int|
                                0 <= w < prev.len() && (#[trigger] prev[w]).i == x && prev[w].j
                                    == y;
                            assert(out@[w] == prev[w]);
                        } else {
                            assert(x == a as int && y == b as int);
                            assert(out@[prev.len() as int].i == a && out@[prev.len() as int].j
                                == b);
                        }
                    }
                }
            } else {
                proof {
                    assert(self.spec_cell_at(a as int, b as int) == cf);
                    assert(self.spec_slot_empty(a as int, b as int));
                    assert forall|x: int, y: int|
                        #![trigger self.spec_idx(x, y)]
                        self.spec_in_grid(x, y) && self.spec_idx(x, y) < m + 1
                            && !self.spec_slot_empty(x, y) implies exists|w: int|
                        0 <= w < out@.len() && (#[trigger] out@[w]).i == x && out@[w].j == y by {
                        lemma_grid_idx(*self, x, y);
                    }
                }
            }
        }
        proof {
            assert forall|a: int, b: int|
                #![trigger self.spec_idx(a, b)]
                self.spec_in_grid(a, b) && !self.spec_slot_empty(a, b) implies exists|m: int|
                0 <= m < out@.len() && (#[trigger] out@[m]).i == a && out@[m].j == b by {
                lemma_grid_idx(*self, a, b);
            }
        }
        out
    }
}

/// The change that playing a card effects on a dense board, as flat
/// index sets into the grid.
#[derive(Copy, Clone, Debug)]
pub struct DenseDiff {
    /// The card to play onto the destination slot.
    pub card: Card,
    pub i: i8,
    pub j: i8,
    /// Grid slots whose top card is flipped face-down.
    pub turned_face_down: u64,
    /// Grid slots whose whole contents are captured.
    pub gathered: u64,
}

/// The outcome of evaluating one candidate placement on a dense board,
/// tied to the board it was computed from.
#[derive(Clone)]
pub struct CalculatedCardPlay {
    /// A snapshot of the board the calculation was made from.
    pub board: Ghost<DenseBoard>,
    pub diff: DenseDiff,
    /// The cards that would be won by this play.
    pub cards_won: CardsSet,
    /// Whether another card must be played by the same actor.
    pub combo: bool,
}

use crate::cards_set::CardsSet;

/// The cards gathered from the captured slots among the first `n` grid
/// slots.
pub open spec fn dense_cards_won_upto(arr: Seq<CompactField>, gathered: u64, n: int) -> Set<Card>
    decreases n,
{
    if n <= 0 {
        Set::empty()
    } else {
        dense_cards_won_upto(arr, gathered, n - 1).union(
            if n - 1 < 64 && bit64(gathered, (n - 1) as u64) {
                arr[n - 1].spec_all_cards()
            } else {
                Set::empty()
            },
        )
    }
}

/// One step of the gathered-cards recursion, unfolded.
proof fn lemma_dense_cards_won_step(arr: Seq<CompactField>, gathered: u64, n: int)
    requires
        0 <= n < arr.len(),
    ensures
        dense_cards_won_upto(arr, gathered, n + 1) == dense_cards_won_upto(
            arr,
            gathered,
            n,
        ).union(
            if n < 64 && bit64(gathered, n as u64) {
                arr[n].spec_all_cards()
            } else {
                Set::empty()
            },
        ),
{
}

/// Local coordinates of position `t` of the grid line `dir` through
/// the local point `(li, lj)`: line 0 is the row, 1 the column, 2 the
/// main diagonal and 3 the anti diagonal.
pub open spec fn dense_line_local(li: int, lj: int, dir: int, t: int) -> (int, int) {
    if dir == 0 {
        (li, t)
    } else if dir == 1 {
        (t, lj)
    } else if dir == 2 {
        (t + li - lj, t)
    } else {
        (t, li + lj - t)
    }
}

/// How many of the first `t` positions of the line hold a cell of the
/// given occupancy set.
pub open spec fn dense_occ_line_count_upto(
    board: DenseBoard,
    occ: Set<(int, int)>,
    li: int,
    lj: int,
    dir: int,
    t: int,
) -> nat
    decreases t,
{
    if t <= 0 {
        0
    } else {
        dense_occ_line_count_upto(board, occ, li, lj, dir, t - 1) + ({
            let q = dense_line_local(li, lj, dir, t - 1);
            if 0 <= q.0 < board.spec_size_i() && 0 <= q.1 < board.spec_size_j() && occ.contains(
                (board.spec_offset_i() + q.0, board.spec_offset_j() + q.1),
            ) {
                1nat
            } else {
                0nat
            }
        })
    }
}

/// How many cells of the grid line through the local point are occupied.
pub open spec fn dense_occ_line_count(
    board: DenseBoard,
    occ: Set<(int, int)>,
    li: int,
    lj: int,
    dir: int,
) -> nat {
    dense_occ_line_count_upto(board, occ, li, lj, dir, 7)
}

/// One step of the line-count recursion, unfolded.
proof fn lemma_dense_occ_count_step(
    board: DenseBoard,
    occ: Set<(int, int)>,
    li: int,
    lj: int,
    dir: int,
    t: int,
)
    requires
        t >= 0,
    ensures
        dense_occ_line_count_upto(board, occ, li, lj, dir, t + 1) == dense_occ_line_count_upto(
            board,
            occ,
            li,
            lj,
            dir,
            t,
        ) + ({
            let q = dense_line_local(li, lj, dir, t);
            if 0 <= q.0 < board.spec_size_i() && 0 <= q.1 < board.spec_size_j() && occ.contains(
                (board.spec_offset_i() + q.0, board.spec_offset_j() + q.1),
            ) {
                1nat
            } else {
                0nat
            }
        }),
{
}

impl DenseBoard {
    /// Whether the slot at the coordinate holds no card at all.
    pub open spec fn spec_slot_empty(self, a: int, b: int) -> bool {
        self.spec_cell_at(a, b).spec_top_card() is None && self.spec_cell_at(
            a,
            b,
        ).spec_hidden().is_empty()
    }

    /// The cells a combo placement flips face-down: the in-grid
    /// orthogonal neighbours for a jack, the in-grid diagonal
    /// neighbours for a queen, the chosen target for a king, and
    /// nothing for any other rank.
    pub open spec fn spec_dense_flip_set(
        self,
        card: Card,
        i: int,
        j: int,
        tgt: Option<(i8, i8)>,
    ) -> Set<(int, int)> {
        if card.rank == Rank::Jack {
            Set::new(
                |p: (int, int)|
                    ((p.0 == i - 1 && p.1 == j) || (p.0 == i + 1 && p.1 == j) || (p.0 == i && p.1
                        == j - 1) || (p.0 == i && p.1 == j + 1)) && self.spec_in_grid(p.0, p.1),
            )
        } else if card.rank == Rank::Queen {
            Set::new(
                |p: (int, int)|
                    ((p.0 == i - 1 && p.1 == j - 1) || (p.0 == i - 1 && p.1 == j + 1) || (p.0 == i
                        + 1 && p.1 == j - 1) || (p.0 == i + 1 && p.1 == j + 1))
                        && self.spec_in_grid(p.0, p.1),
            )
        } else if card.rank == Rank::King {
            match tgt {
                Some(t) => Set::new(|p: (int, int)| p.0 == t.0 as int && p.1 == t.1 as int),
                None => Set::empty(),
            }
        } else {
            Set::empty()
        }
    }

    /// The capturing occupancy of a placement: the destination plus
    /// every grid cell showing the played card's suit, minus the cells
    /// flipped this step.
    pub open spec fn spec_dense_occ(self, card: Card, i: int, j: int, flips: Set<(int, int)>) -> Set<
        (int, int),
    > {
        Set::new(
            |p: (int, int)|
                self.spec_in_grid(p.0, p.1) && ((p.0 == i && p.1 == j) || (
                match self.spec_cell_at(p.0, p.1).spec_top_card() {
                    Some(c) => c.suit == card.suit,
                    None => false,
                })) && !flips.contains(p),
        )
    }

    /// The captured cells of a placement: the occupancy cells on a grid
    /// line through the destination holding exactly four occupied cells,
    /// except the destination itself.
    pub open spec fn spec_dense_captured(
        self,
        card: Card,
        i: int,
        j: int,
        flips: Set<(int, int)>,
    ) -> Set<(int, int)> {
        let occ = self.spec_dense_occ(card, i, j, flips);
        let li = i - self.spec_offset_i();
        let lj = j - self.spec_offset_j();
        Set::new(
            |p: (int, int)|
                occ.contains(p) && !(p.0 == i && p.1 == j) && exists|dir: int, t: int|
                    #![trigger dense_line_local(li, lj, dir, t)]
                    0 <= dir < 4 && 0 <= t < 7 && dense_line_local(li, lj, dir, t) == (
                    p.0 - self.spec_offset_i(),
                    p.1 - self.spec_offset_j(),
                    ) && dense_occ_line_count(self, occ, li, lj, dir) == 4,
        )
    }

    /// The in-grid cells whose bit is set in a grid index set.
    pub open spec fn spec_css_cells(self, css: u64) -> Set<(int, int)> {
        Set::new(
            |p: (int, int)|
                self.spec_in_grid(p.0, p.1) && bit64(css, self.spec_idx(p.0, p.1) as u64),
        )
    }

    /// Simulate playing a card and return the effects that this would
    /// have. Checks the coordinates and the compatibility of the new
    /// card with any existing card there; a combo placement activates
    /// the face card's abilities; completed lines of four of the played
    /// card's suit are gathered.
    #[verifier::rlimit(100)]
    pub fn calculate(&self, card_to_place: CardToPlace) -> (r: Result<
        CalculatedCardPlay,
        IllegalCardPlayed,
    >)
        requires
            self.wf(),
        ensures
            match r {
                Err(e) => match e {
                    IllegalCardPlayed::OutOfBounds => !self.spec_in_grid(
                        card_to_place.i as int,
                        card_to_place.j as int,
                    ),
                    IllegalCardPlayed::IncompatibleCard { existing_card } => {
                        &&& self.spec_in_grid(card_to_place.i as int, card_to_place.j as int)
                        &&& self.spec_cell_at(
                            card_to_place.i as int,
                            card_to_place.j as int,
                        ).spec_top_card() == Some(existing_card)
                        &&& !spec_can_be_placed_on(card_to_place.card, existing_card)
                    },
                    IllegalCardPlayed::NoTargetForKingAbility => {
                        &&& card_to_place.card.rank == Rank::King
                        &&& card_to_place.target_field_for_king_ability is None
                    },
                    IllegalCardPlayed::TargetForKingAbilityDoesNotExist { tgt_i, tgt_j } => {
                        &&& card_to_place.card.rank == Rank::King
                        &&& card_to_place.target_field_for_king_ability == Some((tgt_i, tgt_j))
                        &&& (!self.spec_in_grid(tgt_i as int, tgt_j as int)
                            || self.spec_slot_empty(tgt_i as int, tgt_j as int))
                    },
                    IllegalCardPlayed::TargetForKingAbilityIsFaceDown { tgt_i, tgt_j } => {
                        &&& card_to_place.card.rank == Rank::King
                        &&& card_to_place.target_field_for_king_ability == Some((tgt_i, tgt_j))
                        &&& self.spec_in_grid(tgt_i as int, tgt_j as int)
                        &&& self.spec_cell_at(tgt_i as int, tgt_j as int).spec_top_card() is None
                        &&& !(tgt_i == card_to_place.i && tgt_j == card_to_place.j)
                    },
                },
                Ok(calc) => {
                    &&& calc.board@ == *self
                    &&& self.spec_in_grid(card_to_place.i as int, card_to_place.j as int)
                    &&& calc.combo == !self.spec_slot_empty(
                        card_to_place.i as int,
                        card_to_place.j as int,
                    )
                    &&& calc.diff.card == card_to_place.card
                    &&& calc.diff.i == card_to_place.i
                    &&& calc.diff.j == card_to_place.j
                    &&& forall|k: u64|
                        k < 64 && #[trigger] bit64(calc.diff.turned_face_down, k) ==> k
                            < self.spec_arr().len()
                    &&& forall|a: int, b: int|
                        #![trigger self.spec_idx(a, b)]
                        self.spec_in_grid(a, b) ==> bit64(
                            calc.diff.turned_face_down,
                            self.spec_idx(a, b) as u64,
                        ) == (calc.combo && self.spec_dense_flip_set(
                            card_to_place.card,
                            card_to_place.i as int,
                            card_to_place.j as int,
                            card_to_place.target_field_for_king_ability,
                        ).contains((a, b)))
                    &&& forall|k: u64|
                        k < 64 && #[trigger] bit64(calc.diff.gathered, k) ==> k
                            < self.spec_arr().len() && k != self.spec_idx(
                            card_to_place.i as int,
                            card_to_place.j as int,
                        )
                    &&& forall|a: int, b: int|
                        #![trigger self.spec_idx(a, b)]
                        self.spec_in_grid(a, b) ==> bit64(
                            calc.diff.gathered,
                            self.spec_idx(a, b) as u64,
                        ) == self.spec_dense_captured(
                            card_to_place.card,
                            card_to_place.i as int,
                            card_to_place.j as int,
                            if calc.combo {
                                self.spec_dense_flip_set(
                                    card_to_place.card,
                                    card_to_place.i as int,
                                    card_to_place.j as int,
                                    card_to_place.target_field_for_king_ability,
                                )
                            } else {
                                Set::empty()
                            },
                        ).contains((a, b))
                    &&& (calc.combo && card_to_place.card.rank == Rank::King
                        ==> match card_to_place.target_field_for_king_ability {
                        Some(t) => self.spec_in_grid(t.0 as int, t.1 as int)
                            && !self.spec_slot_empty(t.0 as int, t.1 as int) && (self.spec_cell_at(
                            t.0 as int,
                            t.1 as int,
                        ).spec_top_card() is Some || (t.0 == card_to_place.i && t.1
                            == card_to_place.j)),
                        None => false,
                    })
                    &&& calc.cards_won@ == dense_cards_won_upto(
                        self.spec_arr(),
                        calc.diff.gathered,
                        self.spec_arr().len() as int,
                    )
                },
            },
    {
        let i = card_to_place.i;
        let j = card_to_place.j;
        let card = card_to_place.card;
        let card_dest = match self.arr_idx_checked(i, j) {
            Some(idx) => idx,
            None => {
                return Err(IllegalCardPlayed::OutOfBounds);
            },
        };
        match self.arr[card_dest].top_card() {
            Some(c) => {
                if !card.can_be_placed_on(c) {
                    return Err(IllegalCardPlayed::IncompatibleCard { existing_card: c });
                }
            },
            None => {},
        }
        let combo = !self.arr[card_dest].is_empty();
        let ghost flips = if combo {
            self.spec_dense_flip_set(
                card,
                i as int,
                j as int,
                card_to_place.target_field_for_king_ability,
            )
        } else {
            Set::<(int, int)>::empty()
        };
        let turned_face_down: u64 = if combo {
            match self.fields_to_flip(i, j, card, card_to_place.target_field_for_king_ability) {
                Ok(set) => set,
                Err(e) => {
                    return Err(e);
                },
            }
        } else {
            proof {
                assert forall|k: u64| k < 64 implies !#[trigger] bit64(0u64, k) by {
                    lemma_zero_no_bits(k);
                }
            }
            0
        };
        proof {
            assert(self.spec_size_i() * self.spec_size_j() <= 49) by (nonlinear_arith)
                requires
                    1 <= self.spec_size_i() <= 7 && 1 <= self.spec_size_j() <= 7,
            ;
            assert forall|a: int, b: int|
                #![trigger self.spec_idx(a, b)]
                self.spec_in_grid(a, b) implies bit64(
                turned_face_down,
                self.spec_idx(a, b) as u64,
            ) == (combo && flips.contains((a, b))) by {
                lemma_grid_idx(*self, a, b);
                if !combo {
                    lemma_zero_no_bits(self.spec_idx(a, b) as u64);
                }
            }
        }
        // Build the index set of all same-suit face-up cards, the new
        // card included, minus the cells flipped this step.
        proof {
            assert(self.spec_size_i() * self.spec_size_j() <= 49) by (nonlinear_arith)
                requires
                    1 <= self.spec_size_i() <= 7 && 1 <= self.spec_size_j() <= 7,
            ;
            lemma_grid_idx(*self, i as int, j as int);
            lemma_bit_or_mask(0u64, card_dest as u64, 0);
            assert forall|k: u64|
                k < 64 implies #[trigger] bit64(0u64 | (1u64 << (card_dest as u64)), k) == (k
                == card_dest) by {
                lemma_bit_or_mask(0u64, card_dest as u64, k);
                lemma_zero_no_bits(k);
            }
            assert(0u64 | (1u64 << (card_dest as u64)) == 1u64 << (card_dest as u64))
                by (bit_vector);
        }
        let mut cards_with_same_suit: u64 = 1u64 << (card_dest as u64);
        proof {
            assert forall|a: int, b: int|
                #![trigger self.spec_idx(a, b)]
                self.spec_in_grid(a, b) implies bit64(
                cards_with_same_suit,
                self.spec_idx(a, b) as u64,
            ) == (a == i as int && b == j as int) by {
                lemma_grid_idx(*self, a, b);
                assert(bit64(0u64 | (1u64 << (card_dest as u64)), self.spec_idx(a, b) as u64) == (
                self.spec_idx(a, b) == card_dest));
            }
        }
        let total = self.arr.len();
        for m in 0..total
            invariant
                self.wf(),
                self.spec_in_grid(i as int, j as int),
                card_dest == self.spec_idx(i as int, j as int),
                total == self.spec_arr().len(),
                total <= 49,
                forall|k: u64|
                    k < 64 && #[trigger] bit64(cards_with_same_suit, k) ==> k
                        < self.spec_arr().len(),
                forall|a: int, b: int|
                    #![trigger self.spec_idx(a, b)]
                    self.spec_in_grid(a, b) ==> bit64(
                        cards_with_same_suit,
                        self.spec_idx(a, b) as u64,
                    ) == ((a == i as int && b == j as int) || (self.spec_idx(a, b) < m && (
                    match self.spec_cell_at(a, b).spec_top_card() {
                        Some(c) => c.suit == card.suit,
                        None => false,
                    }))),
        {
            let same = match self.arr[m].top_card() {
                Some(c) => c.suit == card.suit,
                None => false,
            };
            let ghost prev = cards_with_same_suit;
            if same {
                cards_with_same_suit = cards_with_same_suit | (1u64 << (m as u64));
                proof {
                    assert forall|k: u64|
                        k < 64 && #[trigger] bit64(cards_with_same_suit, k) implies k
                        < self.spec_arr().len() by {
                        lemma_bit_or_mask(prev, m as u64, k);
                    }
                }
            }
            proof {
                assert forall|a: int, b: int|
                    #![trigger self.spec_idx(a, b)]
                    self.spec_in_grid(a, b) implies bit64(
                    cards_with_same_suit,
                    self.spec_idx(a, b) as u64,
                ) == ((a == i as int && b == j as int) || (self.spec_idx(a, b) < m + 1 && (
                match self.spec_cell_at(a, b).spec_top_card() {
                    Some(c) => c.suit == card.suit,
                    None => false,
                }))) by {
                    lemma_grid_idx(*self, a, b);
                    if same {
                        lemma_bit_or_mask(prev, m as u64, self.spec_idx(a, b) as u64);
                    }
                    if self.spec_idx(a, b) == m {
                        assert(self.spec_cell_at(a, b) == self.spec_arr()[m as int]);
                    }
                }
            }
        }
        let ghost with_flips = cards_with_same_suit;
        cards_with_same_suit = cards_with_same_suit & !turned_face_down;
        let ghost occ = self.spec_dense_occ(card, i as int, j as int, flips);
        proof {
            assert forall|k: u64|
                k < 64 && #[trigger] bit64(cards_with_same_suit, k) implies k
                < self.spec_arr().len() by {
                crate::bitops::lemma_bit_pairwise(with_flips, !turned_face_down, k);
            }
            assert forall|a: int, b: int|
                #![trigger self.spec_idx(a, b)]
                self.spec_in_grid(a, b) implies bit64(
                cards_with_same_suit,
                self.spec_idx(a, b) as u64,
            ) == occ.contains((a, b)) by {
                lemma_grid_idx(*self, a, b);
                crate::bitops::lemma_bit_pairwise(
                    with_flips,
                    !turned_face_down,
                    self.spec_idx(a, b) as u64,
                );
                crate::bitops::lemma_bit_pairwise(
                    turned_face_down,
                    turned_face_down,
                    self.spec_idx(a, b) as u64,
                );
            }
            assert(self.spec_css_cells(cards_with_same_suit) =~= occ);
        }
        let gathered_all = self.detect_line(card_dest, cards_with_same_suit);
        let ghost pre_clear = gathered_all;
        let gathered = gathered_all & !(1u64 << (card_dest as u64));
        proof {
            assert forall|k: u64| k < 64 && #[trigger] bit64(gathered, k) implies k
                < self.spec_arr().len() && k != self.spec_idx(i as int, j as int) by {
                lemma_bit_clear_mask(pre_clear, card_dest as u64, k);
            }
            assert(self.spec_css_cells(cards_with_same_suit) == occ);
            assert((card_dest as int) / self.spec_size_j() == i as int - self.spec_offset_i() && (
            card_dest as int) % self.spec_size_j() == j as int - self.spec_offset_j())
                by (nonlinear_arith)
                requires
                    card_dest as int == (i as int - self.spec_offset_i()) * self.spec_size_j() + (
                    j as int - self.spec_offset_j()),
                    0 <= i as int - self.spec_offset_i(),
                    0 <= j as int - self.spec_offset_j(),
                    (j as int - self.spec_offset_j()) < self.spec_size_j(),
                    1 <= self.spec_size_j(),
            ;
            assert forall|a: int, b: int|
                #![trigger self.spec_idx(a, b)]
                self.spec_in_grid(a, b) implies bit64(gathered, self.spec_idx(a, b) as u64)
                == self.spec_dense_captured(card, i as int, j as int, flips).contains(
                (a, b),
            ) by {
                lemma_grid_idx(*self, a, b);
                lemma_bit_clear_mask(pre_clear, card_dest as u64, self.spec_idx(a, b) as u64);
                assert((self.spec_idx(a, b) == card_dest) == (a == i as int && b == j as int));
            }
        }
        // Gather the cards of every captured slot.
        let mut cards_won = CardsSet::new();
        proof {
            assert(cards_won@ =~= dense_cards_won_upto(self.spec_arr(), gathered, 0));
        }
        for m in 0..total
            invariant
                self.wf(),
                total == self.spec_arr().len(),
                total <= 49,
                cards_won@ == dense_cards_won_upto(self.spec_arr(), gathered, m as int),
        {
            proof {
                lemma_dense_cards_won_step(self.spec_arr(), gathered, m as int);
                lemma_bit_test(gathered, m as u64);
            }
            if gathered & (1u64 << (m as u64)) != 0 {
                cards_won = cards_won.union(self.arr[m].all_cards());
            } else {
                proof {
                    assert(cards_won@.union(Set::<Card>::empty()) =~= cards_won@);
                }
            }
        }
        Ok(
            CalculatedCardPlay {
                board: Ghost(*self),
                diff: DenseDiff { card, i, j, turned_face_down, gathered },
                cards_won,
                combo,
            },
        )
    }

    /// Marks the slot at the coordinate for flipping, when it lies in
    /// the grid.
    fn flip_slot(&self, set: u64, a: i8, b: i8) -> (r: u64)
        requires
            self.wf(),
            forall|k: u64| k < 64 && #[trigger] bit64(set, k) ==> k < self.spec_arr().len(),
        ensures
            forall|k: u64| k < 64 && #[trigger] bit64(r, k) ==> k < self.spec_arr().len(),
            forall|x: int, y: int|
                #![trigger self.spec_idx(x, y)]
                self.spec_in_grid(x, y) ==> bit64(r, self.spec_idx(x, y) as u64) == (bit64(
                    set,
                    self.spec_idx(x, y) as u64,
                ) || (x == a as int && y == b as int)),
    {
        proof {
            assert(self.spec_size_i() * self.spec_size_j() <= 49) by (nonlinear_arith)
                requires
                    1 <= self.spec_size_i() <= 7 && 1 <= self.spec_size_j() <= 7,
            ;
        }
        match self.arr_idx_checked(a, b) {
            Some(idx) => {
                let r = set | (1u64 << (idx as u64));
                proof {
                    assert forall|k: u64|
                        k < 64 && #[trigger] bit64(r, k) implies k < self.spec_arr().len() by {
                        lemma_bit_or_mask(set, idx as u64, k);
                    }
                    assert forall|x: int, y: int|
                        #![trigger self.spec_idx(x, y)]
                        self.spec_in_grid(x, y) implies bit64(r, self.spec_idx(x, y) as u64) == (
                    bit64(set, self.spec_idx(x, y) as u64) || (x == a as int && y
                        == b as int)) by {
                        lemma_grid_idx(*self, a as int, b as int);
                        lemma_grid_idx(*self, x, y);
                        lemma_bit_or_mask(set, idx as u64, self.spec_idx(x, y) as u64);
                    }
                }
                r
            },
            None => set,
        }
    }

    /// Computes the grid slots a combo placement flips face-down, or
    /// why the king ability cannot resolve.
    fn fields_to_flip(
        &self,
        i: i8,
        j: i8,
        card: Card,
        target_field_for_king_ability: Option<(i8, i8)>,
    ) -> (r: Result<u64, IllegalCardPlayed>)
        requires
            self.wf(),
            self.spec_in_grid(i as int, j as int),
        ensures
            match r {
                Ok(set) => {
                    &&& forall|k: u64|
                        k < 64 && #[trigger] bit64(set, k) ==> k < self.spec_arr().len()
                    &&& forall|a: int, b: int|
                        #![trigger self.spec_idx(a, b)]
                        self.spec_in_grid(a, b) ==> bit64(set, self.spec_idx(a, b) as u64)
                            == self.spec_dense_flip_set(
                            card,
                            i as int,
                            j as int,
                            target_field_for_king_ability,
                        ).contains((a, b))
                    &&& (card.rank == Rank::King ==> match target_field_for_king_ability {
                        Some(t) => self.spec_in_grid(t.0 as int, t.1 as int)
                            && !self.spec_slot_empty(t.0 as int, t.1 as int) && (self.spec_cell_at(
                            t.0 as int,
                            t.1 as int,
                        ).spec_top_card() is Some || (t.0 == i && t.1 == j)),
                        None => false,
                    })
                },
                Err(e) => card.rank == Rank::King && match e {
                    IllegalCardPlayed::NoTargetForKingAbility => {
                        target_field_for_king_ability is None
                    },
                    IllegalCardPlayed::TargetForKingAbilityDoesNotExist { tgt_i, tgt_j } => {
                        &&& target_field_for_king_ability == Some((tgt_i, tgt_j))
                        &&& (!self.spec_in_grid(tgt_i as int, tgt_j as int)
                            || self.spec_slot_empty(tgt_i as int, tgt_j as int))
                    },
                    IllegalCardPlayed::TargetForKingAbilityIsFaceDown { tgt_i, tgt_j } => {
                        &&& target_field_for_king_ability == Some((tgt_i, tgt_j))
                        &&& self.spec_in_grid(tgt_i as int, tgt_j as int)
                        &&& self.spec_cell_at(tgt_i as int, tgt_j as int).spec_top_card() is None
                        &&& !(tgt_i == i && tgt_j == j)
                    },
                    _ => false,
                },
            },
    {
        let mut index_set: u64 = 0;
        proof {
            assert forall|k: u64| k < 64 implies !#[trigger] bit64(0u64, k) by {
                lemma_zero_no_bits(k);
            }
            assert(-55 <= i as int <= 55 && -55 <= j as int <= 55);
            assert(self.spec_size_i() * self.spec_size_j() <= 49) by (nonlinear_arith)
                requires
                    1 <= self.spec_size_i() <= 7 && 1 <= self.spec_size_j() <= 7,
            ;
            assert forall|a: int, b: int|
                #![trigger self.spec_idx(a, b)]
                self.spec_in_grid(a, b) implies !bit64(0u64, self.spec_idx(a, b) as u64) by {
                lemma_grid_idx(*self, a, b);
                lemma_zero_no_bits(self.spec_idx(a, b) as u64);
            }
        }
        match card.rank {
            Rank::Jack => {
                index_set = self.flip_slot(index_set, i - 1, j);
                index_set = self.flip_slot(index_set, i + 1, j);
                index_set = self.flip_slot(index_set, i, j - 1);
                index_set = self.flip_slot(index_set, i, j + 1);
                Ok(index_set)
            },
            Rank::Queen => {
                index_set = self.flip_slot(index_set, i - 1, j - 1);
                index_set = self.flip_slot(index_set, i - 1, j + 1);
                index_set = self.flip_slot(index_set, i + 1, j - 1);
                index_set = self.flip_slot(index_set, i + 1, j + 1);
                Ok(index_set)
            },
            Rank::King => {
                let (tgt_i, tgt_j) = match target_field_for_king_ability {
                    Some(t) => t,
                    None => {
                        return Err(IllegalCardPlayed::NoTargetForKingAbility);
                    },
                };
                let idx = match self.arr_idx_checked(tgt_i, tgt_j) {
                    Some(idx) => idx,
                    None => {
                        return Err(
                            IllegalCardPlayed::TargetForKingAbilityDoesNotExist { tgt_i, tgt_j },
                        );
                    },
                };
                let field = self.arr[idx];
                if field.is_empty() {
                    return Err(
                        IllegalCardPlayed::TargetForKingAbilityDoesNotExist { tgt_i, tgt_j },
                    );
                }
                let top_is_none = match field.top_card() {
                    Some(_) => false,
                    None => true,
                };
                if top_is_none && !(i == tgt_i && j == tgt_j) {
                    return Err(
                        IllegalCardPlayed::TargetForKingAbilityIsFaceDown { tgt_i, tgt_j },
                    );
                }
                let ghost prev = index_set;
                index_set = index_set | (1u64 << (idx as u64));
                proof {
                    assert forall|k: u64|
                        k < 64 && #[trigger] bit64(index_set, k) implies k
                        < self.spec_arr().len() by {
                        lemma_bit_or_mask(prev, idx as u64, k);
                    }
                    assert forall|a: int, b: int|
                        #![trigger self.spec_idx(a, b)]
                        self.spec_in_grid(a, b) implies bit64(
                        index_set,
                        self.spec_idx(a, b) as u64,
                    ) == self.spec_dense_flip_set(
                        card,
                        i as int,
                        j as int,
                        target_field_for_king_ability,
                    ).contains((a, b)) by {
                        lemma_grid_idx(*self, tgt_i as int, tgt_j as int);
                        lemma_grid_idx(*self, a, b);
                        lemma_bit_or_mask(prev, idx as u64, self.spec_idx(a, b) as u64);
                    }
                }
                Ok(index_set)
            },
            _ => Ok(index_set),
        }
    }

    /// Checks whether the newly played card completes a line of four:
    /// such a line can only run through the destination slot and have
    /// the same suit as the new card, so only the four grid lines
    /// through the destination are inspected. A cell of the returned
    /// index set is exactly an occupied cell on a line through the
    /// destination holding exactly four occupied cells.
    #[verifier::rlimit(100)]
    fn detect_line(&self, card_dest: usize, cards_with_same_suit: u64) -> (r: u64)
        requires
            self.wf(),
            card_dest < self.spec_arr().len(),
            forall|k: u64|
                k < 64 && #[trigger] bit64(cards_with_same_suit, k) ==> k
                    < self.spec_arr().len(),
        ensures
            forall|k: u64| k < 64 && #[trigger] bit64(r, k) ==> k < self.spec_arr().len(),
            forall|a: int, b: int|
                #![trigger self.spec_idx(a, b)]
                self.spec_in_grid(a, b) ==> bit64(r, self.spec_idx(a, b) as u64) == (bit64(
                    cards_with_same_suit,
                    self.spec_idx(a, b) as u64,
                ) && exists|dir: int, t: int|
                    #![trigger dense_line_local((card_dest as int) / self.spec_size_j(), (card_dest as int) % self.spec_size_j(), dir, t)]
                    0 <= dir < 4 && 0 <= t < 7 && dense_line_local(
                        (card_dest as int) / self.spec_size_j(),
                        (card_dest as int) % self.spec_size_j(),
                        dir,
                        t,
                    ) == (a - self.spec_offset_i(), b - self.spec_offset_j())
                        && dense_occ_line_count(
                        *self,
                        self.spec_css_cells(cards_with_same_suit),
                        (card_dest as int) / self.spec_size_j(),
                        (card_dest as int) % self.spec_size_j(),
                        dir,
                    ) == 4),
    {
        let i_local = card_dest / self.size_j;
        let j_local = card_dest % self.size_j;
        let ghost occ = self.spec_css_cells(cards_with_same_suit);
        let mut index_set: u64 = 0;
        proof {
            assert(self.spec_size_i() * self.spec_size_j() <= 49) by (nonlinear_arith)
                requires
                    1 <= self.spec_size_i() <= 7 && 1 <= self.spec_size_j() <= 7,
            ;
            assert forall|k: u64| k < 64 implies !#[trigger] bit64(0u64, k) by {
                lemma_zero_no_bits(k);
            }
            assert(i_local < self.spec_size_i() && j_local < self.spec_size_j())
                by (nonlinear_arith)
                requires
                    i_local == (card_dest as int) / self.spec_size_j(),
                    j_local == (card_dest as int) % self.spec_size_j(),
                    0 <= card_dest as int,
                    (card_dest as int) < self.spec_size_i() * self.spec_size_j(),
                    1 <= self.spec_size_i() <= 7,
                    1 <= self.spec_size_j() <= 7,
            ;
            assert forall|a: int, b: int|
                #![trigger self.spec_idx(a, b)]
                self.spec_in_grid(a, b) implies !bit64(0u64, self.spec_idx(a, b) as u64) by {
                lemma_grid_idx(*self, a, b);
                lemma_zero_no_bits(self.spec_idx(a, b) as u64);
            }
        }
        for dir in 0..4usize
            invariant
                self.wf(),
                self.spec_arr().len() <= 49,
                occ == self.spec_css_cells(cards_with_same_suit),
                i_local == (card_dest as int) / self.spec_size_j(),
                j_local == (card_dest as int) % self.spec_size_j(),
                i_local < self.spec_size_i(),
                j_local < self.spec_size_j(),
                forall|k: u64|
                    k < 64 && #[trigger] bit64(cards_with_same_suit, k) ==> k
                        < self.spec_arr().len(),
                forall|k: u64|
                    k < 64 && #[trigger] bit64(index_set, k) ==> k < self.spec_arr().len(),
                forall|a: int, b: int|
                    #![trigger self.spec_idx(a, b)]
                    self.spec_in_grid(a, b) ==> bit64(index_set, self.spec_idx(a, b) as u64) == (
                    bit64(cards_with_same_suit, self.spec_idx(a, b) as u64) && exists|
                        d: int,
                        t: int,
                    |
                        #![trigger dense_line_local(i_local as int, j_local as int, d, t)]
                        0 <= d < dir && 0 <= t < 7 && dense_line_local(
                            i_local as int,
                            j_local as int,
                            d,
                            t,
                        ) == (a - self.spec_offset_i(), b - self.spec_offset_j())
                            && dense_occ_line_count(
                            *self,
                            occ,
                            i_local as int,
                            j_local as int,
                            d,
                        ) == 4),
        {
            // First pass: count the occupied cells on this line.
            let mut count: u8 = 0;
            for t in 0..7usize
                invariant
                    self.wf(),
                    self.spec_arr().len() <= 49,
                    occ == self.spec_css_cells(cards_with_same_suit),
                    dir < 4,
                    count <= t,
                    i_local < self.spec_size_i(),
                    j_local < self.spec_size_j(),
                    count == dense_occ_line_count_upto(
                        *self,
                        occ,
                        i_local as int,
                        j_local as int,
                        dir as int,
                        t as int,
                    ),
            {
                proof {
                    lemma_dense_occ_count_step(
                        *self,
                        occ,
                        i_local as int,
                        j_local as int,
                        dir as int,
                        t as int,
                    );
                }
                match self.line_slot(dir, t, i_local, j_local) {
                    Some(idx) => {
                        proof {
                            lemma_bit_test(cards_with_same_suit, idx as u64);
                            let q = dense_line_local(
                                i_local as int,
                                j_local as int,
                                dir as int,
                                t as int,
                            );
                            lemma_grid_idx(
                                *self,
                                self.spec_offset_i() + q.0,
                                self.spec_offset_j() + q.1,
                            );
                        }
                        if cards_with_same_suit & (1u64 << (idx as u64)) != 0 {
                            count = count + 1;
                        }
                    },
                    None => {},
                }
            }
            // Second pass: a line of exactly four is gathered.
            let ghost prev_dirs = index_set;
            if count == 4 {
                for t in 0..7usize
                    invariant
                        self.wf(),
                        self.spec_arr().len() <= 49,
                        occ == self.spec_css_cells(cards_with_same_suit),
                        dir < 4,
                        i_local < self.spec_size_i(),
                        j_local < self.spec_size_j(),
                        dense_occ_line_count(
                            *self,
                            occ,
                            i_local as int,
                            j_local as int,
                            dir as int,
                        ) == 4,
                        forall|k: u64|
                            k < 64 && #[trigger] bit64(cards_with_same_suit, k) ==> k
                                < self.spec_arr().len(),
                        forall|k: u64|
                            k < 64 && #[trigger] bit64(index_set, k) ==> k
                                < self.spec_arr().len(),
                        forall|a: int, b: int|
                            #![trigger self.spec_idx(a, b)]
                            self.spec_in_grid(a, b) ==> bit64(
                                index_set,
                                self.spec_idx(a, b) as u64,
                            ) == (bit64(prev_dirs, self.spec_idx(a, b) as u64) || (bit64(
                                cards_with_same_suit,
                                self.spec_idx(a, b) as u64,
                            ) && exists|u: int|
                                #![trigger dense_line_local(i_local as int, j_local as int, dir as int, u)]
                                0 <= u < t && dense_line_local(
                                    i_local as int,
                                    j_local as int,
                                    dir as int,
                                    u,
                                ) == (a - self.spec_offset_i(), b - self.spec_offset_j()))),
                {
                    let ghost before = index_set;
                    match self.line_slot(dir, t, i_local, j_local) {
                        Some(idx) => {
                            proof {
                                lemma_bit_test(cards_with_same_suit, idx as u64);
                            }
                            if cards_with_same_suit & (1u64 << (idx as u64)) != 0 {
                                index_set = index_set | (1u64 << (idx as u64));
                                proof {
                                    assert forall|k: u64|
                                        k < 64 && #[trigger] bit64(index_set, k) implies k
                                        < self.spec_arr().len() by {
                                        lemma_bit_or_mask(before, idx as u64, k);
                                    }
                                }
                            }
                        },
                        None => {},
                    }
                    proof {
                        let q = dense_line_local(
                            i_local as int,
                            j_local as int,
                            dir as int,
                            t as int,
                        );
                        assert forall|a: int, b: int|
                            #![trigger self.spec_idx(a, b)]
                            self.spec_in_grid(a, b) implies bit64(
                            index_set,
                            self.spec_idx(a, b) as u64,
                        ) == (bit64(prev_dirs, self.spec_idx(a, b) as u64) || (bit64(
                            cards_with_same_suit,
                            self.spec_idx(a, b) as u64,
                        ) && exists|u: int|
                            #![trigger dense_line_local(i_local as int, j_local as int, dir as int, u)]
                            0 <= u < t + 1 && dense_line_local(
                                i_local as int,
                                j_local as int,
                                dir as int,
                                u,
                            ) == (a - self.spec_offset_i(), b - self.spec_offset_j()))) by {
                            lemma_grid_idx(*self, a, b);
                            if 0 <= q.0 < self.spec_size_i() && 0 <= q.1 < self.spec_size_j() {
                                let qa = self.spec_offset_i() + q.0;
                                let qb = self.spec_offset_j() + q.1;
                                lemma_grid_idx(*self, qa, qb);
                                assert(self.spec_idx(qa, qb) == q.0 * self.spec_size_j() + q.1);
                                lemma_bit_or_mask(
                                    before,
                                    self.spec_idx(qa, qb) as u64,
                                    self.spec_idx(a, b) as u64,
                                );
                                if bit64(index_set, self.spec_idx(a, b) as u64) && !bit64(
                                    before,
                                    self.spec_idx(a, b) as u64,
                                ) {
                                    assert(a == qa && b == qb);
                                    assert(dense_line_local(
                                        i_local as int,
                                        j_local as int,
                                        dir as int,
                                        t as int,
                                    ) == (a - self.spec_offset_i(), b - self.spec_offset_j()));
                                }
                                if !bit64(index_set, self.spec_idx(a, b) as u64) {
                                    if bit64(cards_with_same_suit, self.spec_idx(a, b) as u64)
                                        && exists|u: int|
                                        #![trigger dense_line_local(i_local as int, j_local as int, dir as int, u)]
                                        0 <= u < t + 1 && dense_line_local(
                                            i_local as int,
                                            j_local as int,
                                            dir as int,
                                            u,
                                        ) == (
                                        a - self.spec_offset_i(),
                                        b - self.spec_offset_j(),
                                        ) {
                                        let u = choose|u: int|
                                            #![trigger dense_line_local(i_local as int, j_local as int, dir as int, u)]
                                            0 <= u < t + 1 && dense_line_local(
                                                i_local as int,
                                                j_local as int,
                                                dir as int,
                                                u,
                                            ) == (
                                            a - self.spec_offset_i(),
                                            b - self.spec_offset_j(),
                                            );
                                        if u == t {
                                            assert(a == qa && b == qb);
                                            assert(occ.contains((qa, qb)));
                                            assert(false);
                                        }
                                        assert(false);
                                    }
                                }
                            } else {
                                if bit64(cards_with_same_suit, self.spec_idx(a, b) as u64)
                                    && exists|u: int|
                                    #![trigger dense_line_local(i_local as int, j_local as int, dir as int, u)]
                                    0 <= u < t + 1 && dense_line_local(
                                        i_local as int,
                                        j_local as int,
                                        dir as int,
                                        u,
                                    ) == (a - self.spec_offset_i(), b - self.spec_offset_j()) {
                                    let u = choose|u: int|
                                        #![trigger dense_line_local(i_local as int, j_local as int, dir as int, u)]
                                        0 <= u < t + 1 && dense_line_local(
                                            i_local as int,
                                            j_local as int,
                                            dir as int,
                                            u,
                                        ) == (a - self.spec_offset_i(), b - self.spec_offset_j());
                                    if u == t {
                                        assert(false);
                                    }
                                    assert(bit64(index_set, self.spec_idx(a, b) as u64));
                                }
                            }
                        }
                    }
                }
            } else {
                proof {
                    assert(dense_occ_line_count(
                        *self,
                        occ,
                        i_local as int,
                        j_local as int,
                        dir as int,
                    ) != 4);
                }
            }
            proof {
                assert forall|a: int, b: int|
                    #![trigger self.spec_idx(a, b)]
                    self.spec_in_grid(a, b) implies bit64(index_set, self.spec_idx(a, b) as u64)
                    == (bit64(cards_with_same_suit, self.spec_idx(a, b) as u64) && exists|
                    d: int,
                    t: int,
                |
                    #![trigger dense_line_local(i_local as int, j_local as int, d, t)]
                    0 <= d < dir + 1 && 0 <= t < 7 && dense_line_local(
                        i_local as int,
                        j_local as int,
                        d,
                        t,
                    ) == (a - self.spec_offset_i(), b - self.spec_offset_j())
                        && dense_occ_line_count(*self, occ, i_local as int, j_local as int, d)
                        == 4) by {
                    lemma_grid_idx(*self, a, b);
                    if bit64(index_set, self.spec_idx(a, b) as u64) {
                        if bit64(prev_dirs, self.spec_idx(a, b) as u64) {
                            let (d, t) = choose|d: int, t: int|
                                #![trigger dense_line_local(i_local as int, j_local as int, d, t)]
                                0 <= d < dir && 0 <= t < 7 && dense_line_local(
                                    i_local as int,
                                    j_local as int,
                                    d,
                                    t,
                                ) == (a - self.spec_offset_i(), b - self.spec_offset_j())
                                    && dense_occ_line_count(
                                    *self,
                                    occ,
                                    i_local as int,
                                    j_local as int,
                                    d,
                                ) == 4;
                            assert(0 <= d < dir + 1 && 0 <= t < 7 && dense_line_local(
                                i_local as int,
                                j_local as int,
                                d,
                                t,
                            ) == (a - self.spec_offset_i(), b - self.spec_offset_j())
                                && dense_occ_line_count(
                                *self,
                                occ,
                                i_local as int,
                                j_local as int,
                                d,
                            ) == 4);
                        } else {
                            let u = choose|u: int|
                                #![trigger dense_line_local(i_local as int, j_local as int, dir as int, u)]
                                0 <= u < 7 && dense_line_local(
                                    i_local as int,
                                    j_local as int,
                                    dir as int,
                                    u,
                                ) == (a - self.spec_offset_i(), b - self.spec_offset_j());
                            assert(0 <= dir < dir + 1 && 0 <= u < 7 && dense_line_local(
                                i_local as int,
                                j_local as int,
                                dir as int,
                                u,
                            ) == (a - self.spec_offset_i(), b - self.spec_offset_j())
                                && dense_occ_line_count(
                                *self,
                                occ,
                                i_local as int,
                                j_local as int,
                                dir as int,
                            ) == 4);
                        }
                    } else {
                        if bit64(cards_with_same_suit, self.spec_idx(a, b) as u64) && exists|
                            d: int,
                            t: int,
                        |
                            #![trigger dense_line_local(i_local as int, j_local as int, d, t)]
                            0 <= d < dir + 1 && 0 <= t < 7 && dense_line_local(
                                i_local as int,
                                j_local as int,
                                d,
                                t,
                            ) == (a - self.spec_offset_i(), b - self.spec_offset_j())
                                && dense_occ_line_count(
                                *self,
                                occ,
                                i_local as int,
                                j_local as int,
                                d,
                            ) == 4 {
                            let (d, t) = choose|d: int, t: int|
                                #![trigger dense_line_local(i_local as int, j_local as int, d, t)]
                                0 <= d < dir + 1 && 0 <= t < 7 && dense_line_local(
                                    i_local as int,
                                    j_local as int,
                                    d,
                                    t,
                                ) == (a - self.spec_offset_i(), b - self.spec_offset_j())
                                    && dense_occ_line_count(
                                    *self,
                                    occ,
                                    i_local as int,
                                    j_local as int,
                                    d,
                                ) == 4;
                            if d < dir {
                                assert(bit64(prev_dirs, self.spec_idx(a, b) as u64));
                            } else {
                                assert(exists|u: int|
                                    #![trigger dense_line_local(i_local as int, j_local as int, dir as int, u)]
                                    0 <= u < 7 && dense_line_local(
                                        i_local as int,
                                        j_local as int,
                                        dir as int,
                                        u,
                                    ) == (a - self.spec_offset_i(), b - self.spec_offset_j()));
                            }
                            assert(false);
                        }
                    }
                }
            }
        }
        index_set
    }

    /// The grid slot of position `t` on the given line through the
    /// local destination, if it lies in the grid.
    fn line_slot(&self, dir: usize, t: usize, i_local: usize, j_local: usize) -> (r: Option<usize>)
        requires
            self.wf(),
            dir < 4,
            t < 7,
            i_local < self.spec_size_i(),
            j_local < self.spec_size_j(),
        ensures
            ({
                let q = dense_line_local(i_local as int, j_local as int, dir as int, t as int);
                match r {
                    Some(idx) => 0 <= q.0 < self.spec_size_i() && 0 <= q.1 < self.spec_size_j()
                        && idx == q.0 * self.spec_size_j() + q.1 && idx < self.spec_arr().len(),
                    None => !(0 <= q.0 < self.spec_size_i() && 0 <= q.1 < self.spec_size_j()),
                }
            }),
    {
        let (x, y): (i16, i16) = if dir == 0 {
            (i_local as i16, t as i16)
        } else if dir == 1 {
            (t as i16, j_local as i16)
        } else if dir == 2 {
            let d = (i_local as i16) - (j_local as i16);
            (t as i16 + d, t as i16)
        } else {
            let s = (i_local as i16) + (j_local as i16);
            (t as i16, s - t as i16)
        };
        if x < 0 || y < 0 || x >= self.size_i as i16 || y >= self.size_j as i16 {
            return None;
        }
        proof {
            assert((x as int) * self.spec_size_j() + (y as int) < self.spec_size_i()
                * self.spec_size_j() && (x as int) * self.spec_size_j() <= 42)
                by (nonlinear_arith)
                requires
                    0 <= x as int,
                    (x as int) < self.spec_size_i(),
                    0 <= y as int,
                    (y as int) < self.spec_size_j(),
                    1 <= self.spec_size_j() <= 7,
                    1 <= self.spec_size_i() <= 7,
            ;
            assert(self.spec_size_i() * self.spec_size_j() <= 49) by (nonlinear_arith)
                requires
                    1 <= self.spec_size_i() <= 7 && 1 <= self.spec_size_j() <= 7,
            ;
        }
        Some((x as usize) * self.size_j + (y as usize))
    }

    /// Every grid slot where the card may be placed: empty or face-down
    /// slots take anything, face-up slots must be compatible.
    pub fn possible_locations_for_card(&self, card: Card) -> (r: Vec<(i8, i8)>)
        requires
            self.wf(),
        ensures
            forall|m: int|
                0 <= m < r@.len() ==> self.spec_in_grid(
                    (#[trigger] r@[m]).0 as int,
                    r@[m].1 as int,
                ) && (match self.spec_cell_at(r@[m].0 as int, r@[m].1 as int).spec_top_card() {
                    Some(c) => spec_can_be_placed_on(card, c),
                    None => true,
                }),
            forall|a: int, b: int|
                #![trigger self.spec_idx(a, b)]
                self.spec_in_grid(a, b) && (match self.spec_cell_at(a, b).spec_top_card() {
                    Some(c) => spec_can_be_placed_on(card, c),
                    None => true,
                }) ==> exists|x: int|
                    0 <= x < r@.len() && (#[trigger] r@[x]).0 == a && r@[x].1 == b,
    {
        let cells = self.fields();
        let mut out: Vec<(i8, i8)> = Vec::new();
        let total = cells.len();
        for m in 0..total
            invariant
                self.wf(),
                total == cells@.len(),
                cells@.len() == self.spec_arr().len(),
                forall|x: int|
                    0 <= x < cells@.len() ==> {
                        &&& (#[trigger] cells@[x]).0 == self.spec_offset_i() + x
                            / self.spec_size_j()
                        &&& cells@[x].1 == self.spec_offset_j() + x % self.spec_size_j()
                        &&& cells@[x].2 == self.spec_arr()[x]
                    },
                forall|x: int|
                    0 <= x < out@.len() ==> self.spec_in_grid(
                        (#[trigger] out@[x]).0 as int,
                        out@[x].1 as int,
                    ) && (match self.spec_cell_at(
                        out@[x].0 as int,
                        out@[x].1 as int,
                    ).spec_top_card() {
                        Some(c) => spec_can_be_placed_on(card, c),
                        None => true,
                    }),
                forall|a: int, b: int|
                    #![trigger self.spec_idx(a, b)]
                    self.spec_in_grid(a, b) && self.spec_idx(a, b) < m && (
                    match self.spec_cell_at(a, b).spec_top_card() {
                        Some(c) => spec_can_be_placed_on(card, c),
                        None => true,
                    }) ==> exists|x: int|
                        0 <= x < out@.len() && (#[trigger] out@[x]).0 == a && out@[x].1 == b,
        {
            let (a, b, cf) = cells[m];
            proof {
                assert(0 <= (m as int) / self.spec_size_j() && (m as int) / self.spec_size_j()
                    < self.spec_size_i() && 0 <= (m as int) % self.spec_size_j() && (m as int)
                    % self.spec_size_j() < self.spec_size_j()) by (nonlinear_arith)
                    requires
                        0 <= m as int,
                        (m as int) < self.spec_size_i() * self.spec_size_j(),
                        1 <= self.spec_size_i() <= 7,
                        1 <= self.spec_size_j() <= 7,
                ;
                assert(self.spec_in_grid(a as int, b as int));
                lemma_grid_idx(*self, a as int, b as int);
                assert(self.spec_idx(a as int, b as int) == m) by (nonlinear_arith)
                    requires
                        a as int == self.spec_offset_i() + (m as int) / self.spec_size_j(),
                        b as int == self.spec_offset_j() + (m as int) % self.spec_size_j(),
                        0 <= m as int,
                        (m as int) < self.spec_size_i() * self.spec_size_j(),
                        1 <= self.spec_size_i() <= 7,
                        1 <= self.spec_size_j() <= 7,
                        self.spec_idx(a as int, b as int) == (a as int - self.spec_offset_i())
                            * self.spec_size_j() + (b as int - self.spec_offset_j()),
                ;
                assert(self.spec_cell_at(a as int, b as int) == cf);
            }
            let ok = match cf.top_card() {
                Some(c) => card.can_be_placed_on(c),
                None => true,
            };
            if ok {
                let ghost prev = out@;
                out.push((a, b));
                proof {
                    assert forall|x: int|
                        0 <= x < out@.len() implies self.spec_in_grid(
                        (#[trigger] out@[x]).0 as int,
                        out@[x].1 as int,
                    ) && (match self.spec_cell_at(
                        out@[x].0 as int,
                        out@[x].1 as int,
                    ).spec_top_card() {
                        Some(c) => spec_can_be_placed_on(card, c),
                        None => true,
                    }) by {
                        if x < prev.len() {
                            assert(out@[x] == prev[x]);
                        }
                    }
                    assert forall|x: int, y: int|
                        #![trigger self.spec_idx(x, y)]
                        self.spec_in_grid(x, y) && self.spec_idx(x, y) < m + 1 && (
                        match self.spec_cell_at(x, y).spec_top_card() {
                            Some(c) => spec_can_be_placed_on(card, c),
                            None => true,
                        }) implies exists|w: int|
                        0 <= w < out@.len() && (#[trigger] out@[w]).0 == x && out@[w].1 == y by {
                        lemma_grid_idx(*self, x, y);
                        if self.spec_idx(x, y) < m {
                            let w = choose|w: int|
                                0 <= w < prev.len() && (#[trigger] prev[w]).0 == x && prev[w].1
                                    == y;
                            assert(out@[w] == prev[w]);
                        } else {
                            assert(x == a as int && y == b as int);
                            assert(out@[prev.len() as int].0 == a && out@[prev.len() as int].1
                                == b);
                        }
                    }
                }
            } else {
                proof {
                    assert forall|x: int, y: int|
                        #![trigger self.spec_idx(x, y)]
                        self.spec_in_grid(x, y) && self.spec_idx(x, y) < m + 1 && (
                        match self.spec_cell_at(x, y).spec_top_card() {
                            Some(c) => spec_can_be_placed_on(card, c),
                            None => true,
                        }) implies exists|w: int|
                        0 <= w < out@.len() && (#[trigger] out@[w]).0 == x && out@[w].1 == y by {
                        lemma_grid_idx(*self, x, y);
                    }
                }
            }
        }
        proof {
            assert forall|a: int, b: int|
                #![trigger self.spec_idx(a, b)]
                self.spec_in_grid(a, b) && (match self.spec_cell_at(a, b).spec_top_card() {
                    Some(c) => spec_can_be_placed_on(card, c),
                    None => true,
                }) implies exists|x: int|
                0 <= x < out@.len() && (#[trigger] out@[x]).0 == a && out@[x].1 == b by {
                lemma_grid_idx(*self, a, b);
            }
        }
        out
    }
}

/// Whether the cell survives the placement: occupied, in the grid, and
/// not gathered.
pub open spec fn spec_dense_kept(board: DenseBoard, diff: DenseDiff, a: int, b: int) -> bool {
    &&& board.spec_in_grid(a, b)
    &&& !board.spec_slot_empty(a, b)
    &&& !bit64(diff.gathered, board.spec_idx(a, b) as u64)
}

/// Whether the cell appears on the rebuilt board: a survivor or the
/// destination itself.
pub open spec fn dense_survivor(board: DenseBoard, diff: DenseDiff, a: int, b: int) -> bool {
    spec_dense_kept(board, diff, a, b) || (a == diff.i as int && b == diff.j as int)
}

/// Whether the placement flips the cell face-down.
pub open spec fn spec_dense_flipped(board: DenseBoard, diff: DenseDiff, a: int, b: int) -> bool {
    bit64(diff.turned_face_down, board.spec_idx(a, b) as u64)
}

/// The face-up card a cell shows after the placement is applied.
pub open spec fn spec_dense_result_top(board: DenseBoard, diff: DenseDiff, a: int, b: int) -> Option<
    Card,
> {
    if a == diff.i as int && b == diff.j as int {
        if spec_dense_flipped(board, diff, a, b) {
            None
        } else {
            Some(diff.card)
        }
    } else if board.spec_in_grid(a, b) && !bit64(diff.gathered, board.spec_idx(a, b) as u64) {
        if spec_dense_flipped(board, diff, a, b) {
            None
        } else {
            board.spec_cell_at(a, b).spec_top_card()
        }
    } else {
        None
    }
}

/// The hidden cards a cell holds after the placement is applied.
pub open spec fn spec_dense_result_hidden(
    board: DenseBoard,
    diff: DenseDiff,
    a: int,
    b: int,
) -> Set<Card> {
    if a == diff.i as int && b == diff.j as int {
        let base = crate::board::opt_insert(
            board.spec_cell_at(a, b).spec_hidden(),
            board.spec_cell_at(a, b).spec_top_card(),
        );
        if spec_dense_flipped(board, diff, a, b) {
            base.insert(diff.card)
        } else {
            base
        }
    } else if board.spec_in_grid(a, b) && !bit64(diff.gathered, board.spec_idx(a, b) as u64) {
        if spec_dense_flipped(board, diff, a, b) {
            crate::board::opt_insert(
                board.spec_cell_at(a, b).spec_hidden(),
                board.spec_cell_at(a, b).spec_top_card(),
            )
        } else {
            board.spec_cell_at(a, b).spec_hidden()
        }
    } else {
        Set::empty()
    }
}

impl CalculatedCardPlay {
    /// Apply the computed changes: rebuilds a fresh board over the
    /// surviving cells, with flips applied and the new card placed.
    /// The board handed in must be the very board the calculation was
    /// made from, and the survivors must fit around the destination
    /// (which the game rules guarantee).
    #[verifier::rlimit(100)]
    pub fn execute(self, board: &DenseBoard) -> (r: DenseBoard)
        requires
            *board == self.board@,
            board.wf(),
            board.spec_in_grid(self.diff.i as int, self.diff.j as int),
            -52 <= self.diff.i <= 52,
            -52 <= self.diff.j <= 52,
            !bit64(
                self.diff.gathered,
                board.spec_idx(self.diff.i as int, self.diff.j as int) as u64,
            ),
            forall|a: int, b: int|
                #[trigger] spec_dense_kept(*board, self.diff, a, b) ==> (-3 <= a - self.diff.i <= 3
                    && -3 <= b - self.diff.j <= 3 && -52 <= a <= 52 && -52 <= b <= 52),
        ensures
            r.wf(),
            r.spec_in_grid(self.diff.i as int, self.diff.j as int),
            forall|a: int, b: int|
                #[trigger] dense_survivor(*board, self.diff, a, b) ==> (a <= r.spec_offset_i() + 3
                    && a >= r.spec_offset_i() + r.spec_size_i() - 4 && b <= r.spec_offset_j() + 3
                    && b >= r.spec_offset_j() + r.spec_size_j() - 4),
            exists|a: int, b: int|
                #[trigger] dense_survivor(*board, self.diff, a, b) && a == r.spec_offset_i() + 3,
            exists|a: int, b: int|
                #[trigger] dense_survivor(*board, self.diff, a, b) && a == r.spec_offset_i()
                    + r.spec_size_i() - 4,
            exists|a: int, b: int|
                #[trigger] dense_survivor(*board, self.diff, a, b) && b == r.spec_offset_j() + 3,
            exists|a: int, b: int|
                #[trigger] dense_survivor(*board, self.diff, a, b) && b == r.spec_offset_j()
                    + r.spec_size_j() - 4,
            forall|a: int, b: int|
                #![trigger r.spec_idx(a, b)]
                r.spec_in_grid(a, b) ==> r.spec_cell_at(a, b).spec_top_card()
                    == spec_dense_result_top(*board, self.diff, a, b) && r.spec_cell_at(
                    a,
                    b,
                ).spec_hidden() == spec_dense_result_hidden(*board, self.diff, a, b),
    {
        let ni = self.diff.i;
        let nj = self.diff.j;
        // Determine the surviving extent.
        let mut i_min = ni;
        let mut i_max = ni;
        let mut j_min = nj;
        let mut j_max = nj;
        let cells = board.fields();
        let total = cells.len();
        proof {
            assert(board.spec_size_i() * board.spec_size_j() <= 49) by (nonlinear_arith)
                requires
                    1 <= board.spec_size_i() <= 7 && 1 <= board.spec_size_j() <= 7,
            ;
            assert(dense_survivor(*board, self.diff, ni as int, nj as int));
        }
        for m in 0..total
            invariant
                board.wf(),
                total == cells@.len(),
                total <= 49,
                cells@.len() == board.spec_arr().len(),
                forall|x: int|
                    0 <= x < cells@.len() ==> {
                        &&& (#[trigger] cells@[x]).0 == board.spec_offset_i() + x
                            / board.spec_size_j()
                        &&& cells@[x].1 == board.spec_offset_j() + x % board.spec_size_j()
                        &&& cells@[x].2 == board.spec_arr()[x]
                    },
                ni == self.diff.i,
                nj == self.diff.j,
                -52 <= self.diff.i <= 52,
                -52 <= self.diff.j <= 52,
                forall|a: int, b: int|
                    #[trigger] spec_dense_kept(*board, self.diff, a, b) ==> (-3 <= a - self.diff.i
                        <= 3 && -3 <= b - self.diff.j <= 3 && -52 <= a <= 52 && -52 <= b <= 52),
                i_min <= self.diff.i <= i_max,
                j_min <= self.diff.j <= j_max,
                self.diff.i - 3 <= i_min && i_max <= self.diff.i + 3,
                self.diff.j - 3 <= j_min && j_max <= self.diff.j + 3,
                -52 <= i_min <= 52 && -52 <= i_max <= 52,
                -52 <= j_min <= 52 && -52 <= j_max <= 52,
                i_min == self.diff.i || exists|a: int, b: int|
                    #[trigger] dense_survivor(*board, self.diff, a, b) && a == i_min,
                i_max == self.diff.i || exists|a: int, b: int|
                    #[trigger] dense_survivor(*board, self.diff, a, b) && a == i_max,
                j_min == self.diff.j || exists|a: int, b: int|
                    #[trigger] dense_survivor(*board, self.diff, a, b) && b == j_min,
                j_max == self.diff.j || exists|a: int, b: int|
                    #[trigger] dense_survivor(*board, self.diff, a, b) && b == j_max,
                forall|a: int, b: int|
                    #[trigger] spec_dense_kept(*board, self.diff, a, b) && board.spec_idx(a, b) < m
                        ==> (i_min <= a <= i_max && j_min <= b <= j_max),
        {
            let (a, b, cf) = cells[m];
            proof {
                assert(0 <= (m as int) / board.spec_size_j() && (m as int) / board.spec_size_j()
                    < board.spec_size_i() && 0 <= (m as int) % board.spec_size_j() && (m as int)
                    % board.spec_size_j() < board.spec_size_j()) by (nonlinear_arith)
                    requires
                        0 <= m as int,
                        (m as int) < board.spec_size_i() * board.spec_size_j(),
                        1 <= board.spec_size_i() <= 7,
                        1 <= board.spec_size_j() <= 7,
                ;
                assert(board.spec_in_grid(a as int, b as int));
                lemma_grid_idx(*board, a as int, b as int);
                assert(board.spec_idx(a as int, b as int) == m) by (nonlinear_arith)
                    requires
                        a as int == board.spec_offset_i() + (m as int) / board.spec_size_j(),
                        b as int == board.spec_offset_j() + (m as int) % board.spec_size_j(),
                        0 <= m as int,
                        (m as int) < board.spec_size_i() * board.spec_size_j(),
                        1 <= board.spec_size_i() <= 7,
                        1 <= board.spec_size_j() <= 7,
                        board.spec_idx(a as int, b as int) == (a as int - board.spec_offset_i())
                            * board.spec_size_j() + (b as int - board.spec_offset_j()),
                ;
                lemma_bit_test(self.diff.gathered, m as u64);
            }
            let kept = !cf.is_empty() && (self.diff.gathered & (1u64 << (m as u64)) == 0);
            if kept {
                proof {
                    assert(board.spec_cell_at(a as int, b as int) == cf);
                    assert(spec_dense_kept(*board, self.diff, a as int, b as int));
                    assert(dense_survivor(*board, self.diff, a as int, b as int));
                }
                if a < i_min {
                    i_min = a;
                }
                if a > i_max {
                    i_max = a;
                }
                if b < j_min {
                    j_min = b;
                }
                if b > j_max {
                    j_max = b;
                }
            } else {
                proof {
                    assert(board.spec_cell_at(a as int, b as int) == cf);
                    assert(!spec_dense_kept(*board, self.diff, a as int, b as int));
                }
            }
        }
        let mut new_board = DenseBoard::new_aux(i_min, i_max, j_min, j_max);
        proof {
            assert forall|x: int, y: int|
                #![trigger new_board.spec_idx(x, y)]
                new_board.spec_in_grid(x, y) implies (new_board.spec_cell_at(x, y).spec_top_card()
                is None && new_board.spec_cell_at(x, y).spec_hidden() == Set::<Card>::empty()) by {
                lemma_grid_idx(new_board, x, y);
            }
        }
        // Copy the surviving cells over, flipping where asked.
        for m in 0..total
            invariant
                board.wf(),
                new_board.wf(),
                new_board.spec_offset_i() == i_max - 3,
                new_board.spec_offset_j() == j_max - 3,
                new_board.spec_size_i() == 7 - (i_max - i_min),
                new_board.spec_size_j() == 7 - (j_max - j_min),
                i_min <= self.diff.i <= i_max,
                j_min <= self.diff.j <= j_max,
                self.diff.i - 3 <= i_min && i_max <= self.diff.i + 3,
                self.diff.j - 3 <= j_min && j_max <= self.diff.j + 3,
                total == cells@.len(),
                total <= 49,
                cells@.len() == board.spec_arr().len(),
                forall|x: int|
                    0 <= x < cells@.len() ==> {
                        &&& (#[trigger] cells@[x]).0 == board.spec_offset_i() + x
                            / board.spec_size_j()
                        &&& cells@[x].1 == board.spec_offset_j() + x % board.spec_size_j()
                        &&& cells@[x].2 == board.spec_arr()[x]
                    },
                forall|x: int, y: int|
                    #![trigger new_board.spec_idx(x, y)]
                    new_board.spec_in_grid(x, y) ==> ({
                        if board.spec_in_grid(x, y) && board.spec_idx(x, y) < m && !bit64(
                            self.diff.gathered,
                            board.spec_idx(x, y) as u64,
                        ) {
                            &&& new_board.spec_cell_at(x, y).spec_top_card() == (
                            if spec_dense_flipped(*board, self.diff, x, y) {
                                None
                            } else {
                                board.spec_cell_at(x, y).spec_top_card()
                            })
                            &&& new_board.spec_cell_at(x, y).spec_hidden() == (
                            if spec_dense_flipped(*board, self.diff, x, y) {
                                crate::board::opt_insert(
                                    board.spec_cell_at(x, y).spec_hidden(),
                                    board.spec_cell_at(x, y).spec_top_card(),
                                )
                            } else {
                                board.spec_cell_at(x, y).spec_hidden()
                            })
                        } else {
                            &&& new_board.spec_cell_at(x, y).spec_top_card() is None
                            &&& new_board.spec_cell_at(x, y).spec_hidden() == Set::<Card>::empty()
                        }
                    }),
        {
            let (a, b, cf0) = cells[m];
            proof {
                assert(0 <= (m as int) / board.spec_size_j() && (m as int) / board.spec_size_j()
                    < board.spec_size_i() && 0 <= (m as int) % board.spec_size_j() && (m as int)
                    % board.spec_size_j() < board.spec_size_j()) by (nonlinear_arith)
                    requires
                        0 <= m as int,
                        (m as int) < board.spec_size_i() * board.spec_size_j(),
                        1 <= board.spec_size_i() <= 7,
                        1 <= board.spec_size_j() <= 7,
                ;
                assert(board.spec_in_grid(a as int, b as int));
                lemma_grid_idx(*board, a as int, b as int);
                assert(board.spec_idx(a as int, b as int) == m) by (nonlinear_arith)
                    requires
                        a as int == board.spec_offset_i() + (m as int) / board.spec_size_j(),
                        b as int == board.spec_offset_j() + (m as int) % board.spec_size_j(),
                        0 <= m as int,
                        (m as int) < board.spec_size_i() * board.spec_size_j(),
                        1 <= board.spec_size_i() <= 7,
                        1 <= board.spec_size_j() <= 7,
                        board.spec_idx(a as int, b as int) == (a as int - board.spec_offset_i())
                            * board.spec_size_j() + (b as int - board.spec_offset_j()),
                ;
                lemma_bit_test(self.diff.gathered, m as u64);
                lemma_bit_test(self.diff.turned_face_down, m as u64);
                assert(board.spec_cell_at(a as int, b as int) == cf0);
            }
            let ghost prev_board = new_board;
            if self.diff.gathered & (1u64 << (m as u64)) == 0 {
                let cf = if self.diff.turned_face_down & (1u64 << (m as u64)) != 0 {
                    cf0.turn_face_down()
                } else {
                    cf0
                };
                match new_board.arr_idx_checked(a, b) {
                    Some(idx2) => {
                        new_board.arr.set(idx2, cf);
                    },
                    None => {
                        // The old slot has no place in the new grid; by
                        // the precondition it was empty or captured, so
                        // nothing representable is lost.
                    },
                }
            }
            proof {
                assert forall|x: int, y: int|
                    #![trigger new_board.spec_idx(x, y)]
                    new_board.spec_in_grid(x, y) implies ({
                    if board.spec_in_grid(x, y) && board.spec_idx(x, y) < m + 1 && !bit64(
                        self.diff.gathered,
                        board.spec_idx(x, y) as u64,
                    ) {
                        &&& new_board.spec_cell_at(x, y).spec_top_card() == (
                        if spec_dense_flipped(*board, self.diff, x, y) {
                            None
                        } else {
                            board.spec_cell_at(x, y).spec_top_card()
                        })
                        &&& new_board.spec_cell_at(x, y).spec_hidden() == (
                        if spec_dense_flipped(*board, self.diff, x, y) {
                            crate::board::opt_insert(
                                board.spec_cell_at(x, y).spec_hidden(),
                                board.spec_cell_at(x, y).spec_top_card(),
                            )
                        } else {
                            board.spec_cell_at(x, y).spec_hidden()
                        })
                    } else {
                        &&& new_board.spec_cell_at(x, y).spec_top_card() is None
                        &&& new_board.spec_cell_at(x, y).spec_hidden() == Set::<Card>::empty()
                    }
                }) by {
                    lemma_grid_idx(new_board, x, y);
                    if board.spec_in_grid(x, y) {
                        lemma_grid_idx(*board, x, y);
                    }
                    if new_board.spec_in_grid(a as int, b as int) {
                        lemma_grid_idx(new_board, a as int, b as int);
                    }
                    if !(x == a as int && y == b as int) {
                        assert(new_board.spec_cell_at(x, y) == prev_board.spec_cell_at(x, y));
                    }
                }
            }
        }
        // Place the new card at its destination.
        proof {
            assert(new_board.spec_in_grid(ni as int, nj as int));
            lemma_grid_idx(new_board, ni as int, nj as int);
            lemma_grid_idx(*board, ni as int, nj as int);
            lemma_bit_test(
                self.diff.turned_face_down,
                board.spec_idx(ni as int, nj as int) as u64,
            );
        }
        let card_dest_idx = match new_board.arr_idx_checked(ni, nj) {
            Some(idx) => idx,
            None => vstd::pervasive::unreached(),
        };
        let old_dest_idx = match board.arr_idx_checked(ni, nj) {
            Some(idx) => idx,
            None => vstd::pervasive::unreached(),
        };
        let ghost pre_place = new_board;
        let mut dest_field = new_board.arr[card_dest_idx];
        dest_field = dest_field.place_card(self.diff.card);
        if self.diff.turned_face_down & (1u64 << (old_dest_idx as u64)) != 0 {
            dest_field = dest_field.turn_face_down();
        }
        new_board.arr.set(card_dest_idx, dest_field);
        proof {
            assert forall|x: int, y: int|
                #![trigger new_board.spec_idx(x, y)]
                new_board.spec_in_grid(x, y) implies (new_board.spec_cell_at(x, y).spec_top_card()
                == spec_dense_result_top(*board, self.diff, x, y) && new_board.spec_cell_at(
                x,
                y,
            ).spec_hidden() == spec_dense_result_hidden(*board, self.diff, x, y)) by {
                lemma_grid_idx(new_board, x, y);
                if board.spec_in_grid(x, y) {
                    lemma_grid_idx(*board, x, y);
                }
                if x == ni as int && y == nj as int {
                    assert(new_board.spec_cell_at(x, y) == dest_field);
                    if spec_dense_flipped(*board, self.diff, x, y) {
                        assert(new_board.spec_cell_at(x, y).spec_hidden()
                            =~= spec_dense_result_hidden(*board, self.diff, x, y));
                    } else {
                        assert(new_board.spec_cell_at(x, y).spec_hidden()
                            =~= spec_dense_result_hidden(*board, self.diff, x, y));
                    }
                } else {
                    assert(new_board.spec_cell_at(x, y) == pre_place.spec_cell_at(x, y));
                }
            }
            assert forall|a: int, b: int|
                #[trigger] dense_survivor(*board, self.diff, a, b) implies (a
                <= new_board.spec_offset_i() + 3 && a >= new_board.spec_offset_i()
                + new_board.spec_size_i() - 4 && b <= new_board.spec_offset_j() + 3 && b
                >= new_board.spec_offset_j() + new_board.spec_size_j() - 4) by {
                if spec_dense_kept(*board, self.diff, a, b) {
                    lemma_grid_idx(*board, a, b);
                }
            }
        }
        new_board
    }
}

/// Row-major slot order agrees with the row-major coordinate order.
proof fn lemma_idx_order(board: DenseBoard, a1: int, b1: int, a2: int, b2: int)
    requires
        board.wf(),
        board.spec_in_grid(a1, b1),
        board.spec_in_grid(a2, b2),
        board.spec_idx(a1, b1) < board.spec_idx(a2, b2),
    ensures
        crate::board::coord_lt((a1, b1), (a2, b2)),
{
    let da1 = a1 - board.spec_offset_i();
    let db1 = b1 - board.spec_offset_j();
    let da2 = a2 - board.spec_offset_i();
    let db2 = b2 - board.spec_offset_j();
    let sj = board.spec_size_j();
    assert(da1 < da2 || (da1 == da2 && db1 < db2)) by (nonlinear_arith)
        requires
            da1 * sj + db1 < da2 * sj + db2 && 0 <= db1 < sj && 0 <= db2 < sj && 0 <= da1 && 0
                <= da2,
    ;
}

} // verus!
