//! A compact board representation that stores one bit per field: a 7 x 7
//! occupancy window over absolute coordinates, plus a compressed offset.

use vstd::prelude::*;

use crate::bitops::bit64;
use crate::bitops::bit_index_set;
use crate::bitops::count_bits;
use crate::bitops::lemma_and_mask_high;
use crate::bitops::lemma_bit_pairwise;
use crate::bitops::lemma_high_bits_zero;
use crate::bitops::lemma_popcount_card;
use crate::bitops::popcount;

verus! {

/// Mask of the 49 occupancy bits.
pub const BOARD_MASK: u64 = 0x1ffffffffffff;

/// Mask of the 14 offset bits.
pub const OFFSET_MASK: u64 = 0x7ffe000000000000;

/// The signed value stored in a 7-bit offset field.
pub open spec fn offset7(v: u64) -> int {
    if v >= 64 {
        v - 128
    } else {
        v as int
    }
}

/// The 7-bit offset field holding a signed value in [-64, 64).
pub open spec fn spec_encode7(v: int) -> u64 {
    if v < 0 {
        (v + 128) as u64
    } else {
        v as u64
    }
}

/// Offset compression is invertible: encoding a supported offset and
/// decoding it again returns the original value.
pub proof fn lemma_offset_compression_roundtrip(v: int)
    requires
        -64 <= v < 64,
    ensures
        offset7(spec_encode7(v)) == v,
{
}

/// A compact occupancy set for coordinates within a 7 x 7 window.
///
/// The low 49 bits store the window contents (in row-major order, with
/// `(i, j)` at bit `(i - offset_i) * 7 + (j - offset_j)`), and the next
/// 14 bits store the window offset, 7 bits per coordinate.
///
/// This is an immutable type: methods that change a board return a new
/// value. It is also `Copy`, so a value is not consumed by methods with
/// a `self` receiver.
#[derive(Clone, Copy, Debug)]
pub struct BitBoard {
    bits: u64,
}

/// Decodes the two offset fields of a packed board word.
pub fn decode_offset(bits: u64) -> (r: (i8, i8))
    ensures
        r.0 == offset7((bits >> 56u64) & 0x7fu64),
        r.1 == offset7((bits >> 49u64) & 0x7fu64),
        -64 <= r.0 < 64,
        -64 <= r.1 < 64,
{
    proof {
        lemma_offset7_bounds(bits);
    }
    let ci = ((bits >> 56u64) & 0x7f) as u8;
    let cj = ((bits >> 49u64) & 0x7f) as u8;
    let oi = if ci >= 64 {
        ((ci as i8) - 64) - 64
    } else {
        ci as i8
    };
    let oj = if cj >= 64 {
        ((cj as i8) - 64) - 64
    } else {
        cj as i8
    };
    (oi, oj)
}

/// Packs two supported offsets into the offset fields of a board word.
pub fn encode_offset(offset_i: i8, offset_j: i8) -> (r: u64)
    requires
        -64 <= offset_i < 64,
        -64 <= offset_j < 64,
    ensures
        (r >> 56u64) & 0x7fu64 == spec_encode7(offset_i as int),
        (r >> 49u64) & 0x7fu64 == spec_encode7(offset_j as int),
        offset7((r >> 56u64) & 0x7fu64) == offset_i as int,
        offset7((r >> 49u64) & 0x7fu64) == offset_j as int,
        r & BOARD_MASK == 0,
{
    let ui = ((offset_i as u8) & 0x7f) as u64;
    let uj = ((offset_j as u8) & 0x7f) as u64;
    let r = (ui << 56u64) | (uj << 49u64);
    proof {
        assert((-64 <= offset_i < 64 && -64 <= offset_j < 64 && ui == ((offset_i as u8)
            & 0x7f) as u64 && uj == ((offset_j as u8) & 0x7f) as u64 && r == ((ui << 56u64) | (uj
            << 49u64))) ==> (ui < 128 && uj < 128 && (offset_i >= 0 ==> ui == offset_i) && (offset_i
            < 0 ==> ui == offset_i + 128) && (offset_j >= 0 ==> uj == offset_j) && (offset_j < 0
            ==> uj == offset_j + 128) && (r >> 56u64) & 0x7fu64 == ui && (r >> 49u64) & 0x7fu64
            == uj && r & 0x1ffffffffffffu64 == 0)) by (bit_vector);
    }
    r
}

/// The bits of the occupancy mask are exactly the 49 low bits.
proof fn lemma_board_mask_bits(k: u64)
    ensures
        BOARD_MASK >> 49u64 == 0,
        k < 64 ==> (bit64(BOARD_MASK, k) == (k < 49)),
{
    assert(0x1ffffffffffffu64 >> 49u64 == 0 && (k < 64 ==> (((0x1ffffffffffffu64 >> k) & 1u64
        == 1u64) == (k < 49)))) by (bit_vector);
}

/// Setting or clearing an occupancy bit leaves the offset fields alone.
proof fn lemma_low_change_keeps_offsets(x: u64, k: u64)
    requires
        k < 49,
    ensures
        ((x | (1u64 << k)) >> 56u64) & 0x7fu64 == (x >> 56u64) & 0x7fu64,
        ((x | (1u64 << k)) >> 49u64) & 0x7fu64 == (x >> 49u64) & 0x7fu64,
        ((x & !(1u64 << k)) >> 56u64) & 0x7fu64 == (x >> 56u64) & 0x7fu64,
        ((x & !(1u64 << k)) >> 49u64) & 0x7fu64 == (x >> 49u64) & 0x7fu64,
{
    assert((k < 49) ==> (((x | (1u64 << k)) >> 56u64) & 0x7fu64 == (x >> 56u64) & 0x7fu64 && ((x | (
    1u64 << k)) >> 49u64) & 0x7fu64 == (x >> 49u64) & 0x7fu64 && ((x & !(1u64 << k)) >> 56u64)
        & 0x7fu64 == (x >> 56u64) & 0x7fu64 && ((x & !(1u64 << k)) >> 49u64) & 0x7fu64 == (x
        >> 49u64) & 0x7fu64)) by (bit_vector);
}

/// Taking the difference keeps the offset fields of the left word and
/// combines the occupancy bits pointwise.
proof fn lemma_difference_bits(x: u64, y: u64, k: u64)
    requires
        k < 49,
    ensures
        ((x & !(y & BOARD_MASK)) >> 56u64) & 0x7fu64 == (x >> 56u64) & 0x7fu64,
        ((x & !(y & BOARD_MASK)) >> 49u64) & 0x7fu64 == (x >> 49u64) & 0x7fu64,
        bit64(x & !(y & BOARD_MASK), k) == (bit64(x, k) && !bit64(y, k)),
{
    assert((k < 49) ==> (((x & !(y & 0x1ffffffffffffu64)) >> 56u64) & 0x7fu64 == (x >> 56u64)
        & 0x7fu64 && ((x & !(y & 0x1ffffffffffffu64)) >> 49u64) & 0x7fu64 == (x >> 49u64) & 0x7fu64
        && ((((x & !(y & 0x1ffffffffffffu64)) >> k) & 1u64) == 1u64) == ((((x >> k) & 1u64) == 1u64)
        && !(((y >> k) & 1u64) == 1u64)))) by (bit_vector);
}

/// Union of two words with equal offset fields: offsets kept, occupancy
/// combined pointwise.
proof fn lemma_union_bits(x: u64, y: u64, k: u64)
    requires
        (x >> 56u64) & 0x7fu64 == (y >> 56u64) & 0x7fu64,
        (x >> 49u64) & 0x7fu64 == (y >> 49u64) & 0x7fu64,
        k < 49,
    ensures
        ((x | y) >> 56u64) & 0x7fu64 == (x >> 56u64) & 0x7fu64,
        ((x | y) >> 49u64) & 0x7fu64 == (x >> 49u64) & 0x7fu64,
        bit64(x | y, k) == (bit64(x, k) || bit64(y, k)),
{
    assert(((x >> 56u64) & 0x7fu64 == (y >> 56u64) & 0x7fu64 && (x >> 49u64) & 0x7fu64 == (y
        >> 49u64) & 0x7fu64 && k < 49) ==> (((x | y) >> 56u64) & 0x7fu64 == (x >> 56u64) & 0x7fu64
        && ((x | y) >> 49u64) & 0x7fu64 == (x >> 49u64) & 0x7fu64 && ((((x | y) >> k) & 1u64)
        == 1u64) == ((((x >> k) & 1u64) == 1u64) || (((y >> k) & 1u64) == 1u64))))
        by (bit_vector);
}

/// Clearing every occupancy bit keeps the offset fields.
proof fn lemma_clear_board_bits(x: u64, k: u64)
    requires
        k < 49,
    ensures
        ((x & OFFSET_MASK) >> 56u64) & 0x7fu64 == (x >> 56u64) & 0x7fu64,
        ((x & OFFSET_MASK) >> 49u64) & 0x7fu64 == (x >> 49u64) & 0x7fu64,
        !bit64(x & OFFSET_MASK, k),
{
    assert((k < 49) ==> (((x & 0x7ffe000000000000u64) >> 56u64) & 0x7fu64 == (x >> 56u64) & 0x7fu64
        && ((x & 0x7ffe000000000000u64) >> 49u64) & 0x7fu64 == (x >> 49u64) & 0x7fu64 && !((((x
        & 0x7ffe000000000000u64) >> k) & 1u64) == 1u64))) by (bit_vector);
}

/// In a 7-wide grid, the row-major cell index determines row and column.
proof fn lemma_cell_unique(da: int, db: int, ea: int, eb: int)
    by (nonlinear_arith)
    requires
        0 <= da < 7,
        0 <= db < 7,
        0 <= ea < 7,
        0 <= eb < 7,
    ensures
        (da * 7 + db == ea * 7 + eb) == (da == ea && db == eb),
{
}

impl BitBoard {
    /// The `i` coordinate of the window's lowest representable cell.
    pub closed spec fn spec_offset_i(self) -> int {
        offset7((self.bits >> 56u64) & 0x7fu64)
    }

    /// The `j` coordinate of the window's lowest representable cell.
    pub closed spec fn spec_offset_j(self) -> int {
        offset7((self.bits >> 49u64) & 0x7fu64)
    }

    /// Whether the coordinate is representable in this window.
    pub open spec fn spec_in_window(self, i: int, j: int) -> bool {
        &&& self.spec_offset_i() <= i < self.spec_offset_i() + 7
        &&& self.spec_offset_j() <= j < self.spec_offset_j() + 7
    }

    /// The occupancy bit index of an in-window coordinate.
    pub closed spec fn spec_idx(self, i: int, j: int) -> int {
        (i - self.spec_offset_i()) * 7 + (j - self.spec_offset_j())
    }

    /// Whether the coordinate is occupied. Coordinates outside the window
    /// are never occupied.
    pub closed spec fn spec_contains(self, i: int, j: int) -> bool {
        self.spec_in_window(i, j) && bit64(self.bits, self.spec_idx(i, j) as u64)
    }

    /// The set of occupied coordinates.
    pub open spec fn spec_cells(self) -> Set<(int, int)> {
        Set::new(|p: (int, int)| self.spec_contains(p.0, p.1))
    }

    /// Whether two boards share one window.
    pub open spec fn same_offset(self, other: Self) -> bool {
        self.spec_offset_i() == other.spec_offset_i() && self.spec_offset_j()
            == other.spec_offset_j()
    }

    /// An empty board whose window is centered on the given coordinate.
    ///
    /// Centering matters: every later card that keeps the board inside a
    /// 4 x 4 bounding box stays representable, and so does any cell of
    /// the surrounding playable area.
    pub fn empty_board_centered_at(p: (i8, i8)) -> (r: Self)
        requires
            -55 <= p.0 <= 55,
            -55 <= p.1 <= 55,
        ensures
            r.spec_offset_i() == p.0 - 3,
            r.spec_offset_j() == p.1 - 3,
            forall|i: int, j: int| !r.spec_contains(i, j),
    {
        let (i, j) = p;
        let r = Self { bits: encode_offset(i - 3, j - 3) };
        proof {
            lemma_no_cells_of_empty(r);
        }
        r
    }

    /// The window offset pair.
    pub fn offset(self) -> (r: (i8, i8))
        ensures
            r.0 == self.spec_offset_i(),
            r.1 == self.spec_offset_j(),
            -64 <= self.spec_offset_i() < 64,
            -64 <= self.spec_offset_j() < 64,
    {
        decode_offset(self.bits)
    }

    /// The local coordinates of an in-window cell.
    fn local_coords(self, i: i8, j: i8) -> (r: (u8, u8))
        requires
            self.spec_in_window(i as int, j as int),
        ensures
            r.0 == i - self.spec_offset_i(),
            r.1 == j - self.spec_offset_j(),
    {
        let (offset_i, offset_j) = self.offset();
        proof {
            lemma_offset7_bounds(self.bits);
        }
        let i_local = ((i as i16) - (offset_i as i16)) as u8;
        let j_local = ((j as i16) - (offset_j as i16)) as u8;
        (i_local, j_local)
    }

    /// The occupancy bit index of an in-window cell.
    fn arr_idx(self, i: i8, j: i8) -> (r: u8)
        requires
            self.spec_in_window(i as int, j as int),
        ensures
            r == self.spec_idx(i as int, j as int),
            r < 49,
    {
        let (i_local, j_local) = self.local_coords(i, j);
        i_local * 7 + j_local
    }

    /// Set the bit for the given coordinate, which must lie in the window.
    #[must_use]
    pub fn insert(self, i: i8, j: i8) -> (r: Self)
        requires
            self.spec_in_window(i as int, j as int),
        ensures
            r.same_offset(self),
            forall|a: int, b: int|
                r.spec_contains(a, b) == (self.spec_contains(a, b) || (a == i && b == j)),
    {
        let idx = self.arr_idx(i, j);
        let r = Self { bits: self.bits | (1u64 << (idx as u64)) };
        proof {
            lemma_low_change_keeps_offsets(self.bits, idx as u64);
            assert forall|a: int, b: int|
                r.spec_contains(a, b) == (self.spec_contains(a, b) || (a == i && b
                    == j)) by {
                if r.spec_in_window(a, b) {
                    let k = self.spec_idx(a, b);
                    crate::bitops::lemma_bit_or_mask(self.bits, idx as u64, k as u64);
                    lemma_cell_unique(
                        a - self.spec_offset_i(),
                        b - self.spec_offset_j(),
                        i - self.spec_offset_i(),
                        j - self.spec_offset_j(),
                    );
                }
            }
        }
        r
    }

    /// Clear the bit for the given coordinate, which must lie in the window.
    #[must_use]
    pub fn remove(self, i: i8, j: i8) -> (r: Self)
        requires
            self.spec_in_window(i as int, j as int),
        ensures
            r.same_offset(self),
            forall|a: int, b: int|
                r.spec_contains(a, b) == (self.spec_contains(a, b) && !(a == i && b == j)),
    {
        let idx = self.arr_idx(i, j);
        let r = Self { bits: self.bits & !(1u64 << (idx as u64)) };
        proof {
            lemma_low_change_keeps_offsets(self.bits, idx as u64);
            assert forall|a: int, b: int|
                r.spec_contains(a, b) == (self.spec_contains(a, b) && !(a == i && b
                    == j)) by {
                if r.spec_in_window(a, b) {
                    let k = self.spec_idx(a, b);
                    crate::bitops::lemma_bit_clear_mask(self.bits, idx as u64, k as u64);
                    lemma_cell_unique(
                        a - self.spec_offset_i(),
                        b - self.spec_offset_j(),
                        i - self.spec_offset_i(),
                        j - self.spec_offset_j(),
                    );
                }
            }
        }
        r
    }

    /// Sets every bit of the given rectangle, whose corners must lie in
    /// the window.
    #[must_use]
    pub fn insert_area(self, i_min: i8, j_min: i8, i_max: i8, j_max: i8) -> (r: Self)
        requires
            self.spec_in_window(i_min as int, j_min as int),
            self.spec_in_window(i_max as int, j_max as int),
            i_min <= i_max,
            j_min <= j_max,
        ensures
            r.same_offset(self),
            forall|a: int, b: int|
                r.spec_contains(a, b) == (self.spec_contains(a, b) || (i_min <= a <= i_max && j_min
                    <= b <= j_max)),
    {
        let mut r = self;
        let ni = ((i_max as i16) - (i_min as i16)) as u8 + 1;
        let nj = ((j_max as i16) - (j_min as i16)) as u8 + 1;
        for di in 0..ni
            invariant
                ni == i_max - i_min + 1,
                nj == j_max - j_min + 1,
                ni <= 7,
                nj <= 7,
                r.same_offset(self),
                self.spec_in_window(i_min as int, j_min as int),
                self.spec_in_window(i_max as int, j_max as int),
                forall|a: int, b: int|
                    r.spec_contains(a, b) == (self.spec_contains(a, b) || (i_min <= a < i_min + di
                        && j_min <= b <= j_max)),
        {
            let i = i_min + di as i8;
            for dj in 0..nj
                invariant
                    ni == i_max - i_min + 1,
                    nj == j_max - j_min + 1,
                    ni <= 7,
                    nj <= 7,
                    di < ni,
                    i == i_min + di,
                    r.same_offset(self),
                    self.spec_in_window(i_min as int, j_min as int),
                    self.spec_in_window(i_max as int, j_max as int),
                    forall|a: int, b: int|
                        r.spec_contains(a, b) == (self.spec_contains(a, b) || (i_min <= a < i_min
                            + di && j_min <= b <= j_max) || (a == i && j_min <= b < j_min + dj)),
            {
                let j = j_min + dj as i8;
                r = r.insert(i, j);
            }
        }
        r
    }

    /// Whether the board holds the given coordinate. Returns `false` for
    /// any coordinate outside the window.
    pub fn contains(self, i: i8, j: i8) -> (r: bool)
        ensures
            r == self.spec_contains(i as int, j as int),
    {
        let (offset_i, offset_j) = self.offset();
        proof {
            lemma_offset7_bounds(self.bits);
        }
        let i_local = (i as i16) - (offset_i as i16);
        let j_local = (j as i16) - (offset_j as i16);
        if i_local < 0 || j_local < 0 || i_local >= 7 || j_local >= 7 {
            return false;
        }
        let idx = ((i_local * 7) + j_local) as u64;
        proof {
            crate::bitops::lemma_bit_test(self.bits, idx);
        }
        self.bits & (1u64 << idx) != 0
    }

    /// Whether no cell of the window is occupied.
    pub fn is_empty(self) -> (r: bool)
        ensures
            r == (forall|i: int, j: int| !self.spec_contains(i, j)),
    {
        let r = (self.bits & BOARD_MASK) == 0;
        proof {
            if r {
                lemma_no_cells_of_empty(self);
            } else {
                broadcast use vstd::std_specs::bits::axiom_u64_trailing_zeros;

                lemma_board_mask_bits(0);
                let y = self.bits & BOARD_MASK;
                lemma_and_mask_high(self.bits, BOARD_MASK, 49);
                let tz = u64::trailing_zeros(y) as u64;
                assert(bit64(y, tz));
                if tz >= 49 {
                    lemma_high_bits_zero(y, 49, tz);
                }
                lemma_bit_pairwise(self.bits, BOARD_MASK, tz);
                let a = self.spec_offset_i() + tz / 7;
                let b = self.spec_offset_j() + tz % 7;
                assert(self.spec_idx(a, b) == tz);
                assert(self.spec_contains(a, b));
            }
        }
        r
    }

    /// The number of occupied cells.
    pub fn num_entries(self) -> (r: u32)
        ensures
            r == self.spec_cells().len(),
            self.spec_cells().finite(),
    {
        proof {
            lemma_cells_card(self);
        }
        count_bits(self.bits & BOARD_MASK)
    }

    /// The cells of `self` that are not in `other`, which must share
    /// this board's window.
    #[must_use]
    pub fn difference(self, other: BitBoard) -> (r: BitBoard)
        requires
            self.same_offset(other),
        ensures
            r.same_offset(self),
            forall|a: int, b: int|
                r.spec_contains(a, b) == (self.spec_contains(a, b) && !other.spec_contains(a, b)),
    {
        let r = Self { bits: self.bits & !(other.bits & BOARD_MASK) };
        proof {
            lemma_difference_bits(self.bits, other.bits, 0);
            assert forall|a: int, b: int|
                r.spec_contains(a, b) == (self.spec_contains(a, b) && !other.spec_contains(
                    a,
                    b,
                )) by {
                if r.spec_in_window(a, b) {
                    lemma_difference_bits(self.bits, other.bits, self.spec_idx(a, b) as u64);
                }
            }
        }
        r
    }

    /// The cells of either board, which must share one window.
    #[must_use]
    pub fn union(self, other: BitBoard) -> (r: BitBoard)
        requires
            self.same_offset(other),
        ensures
            r.same_offset(self),
            forall|a: int, b: int|
                r.spec_contains(a, b) == (self.spec_contains(a, b) || other.spec_contains(a, b)),
    {
        proof {
            lemma_offset_fields_from_offsets(self, other);
        }
        let r = Self { bits: self.bits | other.bits };
        proof {
            lemma_union_bits(self.bits, other.bits, 0);
            assert forall|a: int, b: int|
                r.spec_contains(a, b) == (self.spec_contains(a, b) || other.spec_contains(
                    a,
                    b,
                )) by {
                if r.spec_in_window(a, b) {
                    lemma_union_bits(self.bits, other.bits, self.spec_idx(a, b) as u64);
                }
            }
        }
        r
    }

    /// The same window with every cell cleared.
    #[must_use]
    pub fn clear_cells(self) -> (r: BitBoard)
        ensures
            r.same_offset(self),
            forall|a: int, b: int| !r.spec_contains(a, b),
    {
        let r = Self { bits: self.bits & OFFSET_MASK };
        proof {
            lemma_clear_board_bits(self.bits, 0);
            assert forall|a: int, b: int| !r.spec_contains(a, b) by {
                if r.spec_in_window(a, b) {
                    lemma_clear_board_bits(self.bits, r.spec_idx(a, b) as u64);
                }
            }
        }
        r
    }

    /// The raw packed word.
    pub fn to_bits(self) -> (r: u64)
        ensures
            r == self.spec_bits(),
    {
        self.bits
    }

    /// The raw packed word.
    pub closed spec fn spec_bits(self) -> u64 {
        self.bits
    }

    /// The same contents in a window centered on the given coordinate.
    /// Cells that the new window cannot represent are dropped: by
    /// construction they cannot matter to a query centered there.
    #[must_use]
    pub fn recenter_to(self, p: (i8, i8)) -> (r: Self)
        requires
            -55 <= p.0 <= 55,
            -55 <= p.1 <= 55,
        ensures
            r.spec_offset_i() == p.0 - 3,
            r.spec_offset_j() == p.1 - 3,
            forall|a: int, b: int|
                r.spec_contains(a, b) == (self.spec_contains(a, b) && r.spec_in_window(a, b)),
    {
        let (oi, oj) = self.offset();
        proof {
            lemma_offset7_bounds(self.bits);
        }
        let noi = p.0 - 3;
        let noj = p.1 - 3;
        let di16 = (oi as i16) - (noi as i16);
        let dj16 = (oj as i16) - (noj as i16);
        let di: i8 = if di16 > 7 {
            7
        } else if di16 < -7 {
            -7
        } else {
            di16 as i8
        };
        let dj: i8 = if dj16 > 7 {
            7
        } else if dj16 < -7 {
            -7
        } else {
            dj16 as i8
        };
        let shifted = shift_2d_lossy(self.bits, (di, dj));
        let enc = encode_offset(noi, noj);
        let r = Self { bits: enc | shifted };
        proof {
            lemma_or_split_words(enc, shifted, 0);
            assert forall|a: int, b: int|
                r.spec_contains(a, b) == (self.spec_contains(a, b) && r.spec_in_window(
                    a,
                    b,
                )) by {
                if r.spec_in_window(a, b) {
                    let ta = a - (noi as int);
                    let tb = b - (noj as int);
                    let k = (ta * 7 + tb) as u64;
                    lemma_or_split_words(enc, shifted, k);
                    assert(bit64(r.bits, k) == bit64(shifted, k));
                    assert(bit64(shifted, k) == (0 <= ta - di < 7 && 0 <= tb - dj < 7 && bit64(
                        self.bits,
                        ((ta - di) * 7 + (tb - dj)) as u64,
                    )));
                    if 0 <= ta - di < 7 && 0 <= tb - dj < 7 {
                        assert(di == oi - noi && dj == oj - noj);
                        assert(ta - di == a - oi && tb - dj == b - oj);
                    } else {
                        if di16 == di && dj16 == dj {
                            assert(!(self.spec_in_window(a, b)));
                        } else {
                            assert(!(self.spec_in_window(a, b)));
                        }
                    }
                }
            }
        }
        r
    }
}

/// The cell reached from `(pi, pj)` in direction `dir` at position `t`
/// of the 7-cell line segment centered on the point: `dir` 0 walks along
/// the row, 1 along the column, 2 along the main diagonal and 3 along
/// the anti diagonal.
pub open spec fn line_cell(pi: int, pj: int, dir: int, t: int) -> (int, int) {
    if dir == 0 {
        (pi, pj + t - 3)
    } else if dir == 1 {
        (pi + t - 3, pj)
    } else if dir == 2 {
        (pi + t - 3, pj + t - 3)
    } else {
        (pi + t - 3, pj - t + 3)
    }
}

/// How many of the first `t` cells of the direction's line segment are
/// occupied.
pub open spec fn spec_line_count_upto(bb: BitBoard, pi: int, pj: int, dir: int, t: int) -> nat
    decreases t,
{
    if t <= 0 {
        0
    } else {
        spec_line_count_upto(bb, pi, pj, dir, t - 1) + (if bb.spec_contains(
            line_cell(pi, pj, dir, t - 1).0,
            line_cell(pi, pj, dir, t - 1).1,
        ) {
            1nat
        } else {
            0nat
        })
    }
}

/// How many cells of the direction's 7-cell line segment through the
/// point are occupied.
pub open spec fn spec_line_count(bb: BitBoard, pi: int, pj: int, dir: int) -> nat {
    spec_line_count_upto(bb, pi, pj, dir, 7)
}

impl BitBoard {
    /// The cells that lie on a completed line of four through the given
    /// point: a cell stays exactly when it is occupied, lies on one of
    /// the four line segments through the point (within the 7 x 7 area
    /// centered on the point), and that segment holds exactly four
    /// occupied cells.
    #[must_use]
    pub fn lines_going_through_point(self, point_i: i8, point_j: i8) -> (r: BitBoard)
        requires
            -55 <= point_i <= 55,
            -55 <= point_j <= 55,
        ensures
            r.same_offset(self),
            forall|a: int, b: int|
                #![trigger r.spec_contains(a, b)]
                r.spec_contains(a, b) == (self.spec_contains(a, b) && exists|dir: int, t: int|
                    0 <= dir < 4 && 0 <= t < 7 && (a, b) == line_cell(
                        point_i as int,
                        point_j as int,
                        dir,
                        t,
                    ) && spec_line_count(self, point_i as int, point_j as int, dir) == 4),
    {
        let mut r = self.clear_cells();
        let ghost pi = point_i as int;
        let ghost pj = point_j as int;
        for dir in 0..4u8
            invariant
                -55 <= point_i <= 55,
                -55 <= point_j <= 55,
                pi == point_i as int,
                pj == point_j as int,
                r.same_offset(self),
                forall|a: int, b: int|
                    #![trigger r.spec_contains(a, b)]
                    r.spec_contains(a, b) == (self.spec_contains(a, b) && exists|d: int, t: int|
                        0 <= d < dir && 0 <= t < 7 && (a, b) == line_cell(pi, pj, d, t)
                            && spec_line_count(self, pi, pj, d) == 4),
        {
            let mut count: u8 = 0;
            for t in 0..7u8
                invariant
                    -55 <= point_i <= 55,
                    -55 <= point_j <= 55,
                    pi == point_i as int,
                    pj == point_j as int,
                    dir < 4,
                    count == spec_line_count_upto(self, pi, pj, dir as int, t as int),
                    count <= t,
            {
                let (ci, cj) = line_cell_at(point_i, point_j, dir, t);
                proof {
                    lemma_line_count_step(self, pi, pj, dir as int, t as int);
                }
                if self.contains(ci, cj) {
                    count = count + 1;
                }
            }
            if count == 4 {
                let ghost prev = r;
                for t in 0..7u8
                    invariant
                        -55 <= point_i <= 55,
                        -55 <= point_j <= 55,
                        pi == point_i as int,
                        pj == point_j as int,
                        dir < 4,
                        spec_line_count(self, pi, pj, dir as int) == 4,
                        r.same_offset(self),
                        forall|a: int, b: int|
                            #![trigger r.spec_contains(a, b)]
                            r.spec_contains(a, b) == (prev.spec_contains(a, b) || (
                            self.spec_contains(a, b) && exists|u: int|
                                0 <= u < t && (a, b) == line_cell(pi, pj, dir as int, u))),
                        forall|a: int, b: int|
                            #![trigger prev.spec_contains(a, b)]
                            prev.spec_contains(a, b) == (self.spec_contains(a, b) && exists|
                                d: int,
                                u: int,
                            |
                                0 <= d < dir && 0 <= u < 7 && (a, b) == line_cell(pi, pj, d, u)
                                    && spec_line_count(self, pi, pj, d) == 4),
                {
                    let (ci, cj) = line_cell_at(point_i, point_j, dir, t);
                    let ghost before = r;
                    let occupied = self.contains(ci, cj);
                    if occupied {
                        r = r.insert(ci, cj);
                    }
                    proof {
                        let cell = line_cell(pi, pj, dir as int, t as int);
                        assert(cell.0 == ci as int && cell.1 == cj as int);
                        assert forall|a: int, b: int|
                            #![trigger r.spec_contains(a, b)]
                            r.spec_contains(a, b) == (prev.spec_contains(a, b) || (
                            self.spec_contains(a, b) && exists|u: int|
                                0 <= u < t + 1 && (a, b) == line_cell(pi, pj, dir as int, u))) by {
                            if r.spec_contains(a, b) {
                                if !prev.spec_contains(a, b) {
                                    if before.spec_contains(a, b) {
                                        let u = choose|u: int|
                                            0 <= u < t && (a, b) == line_cell(
                                                pi,
                                                pj,
                                                dir as int,
                                                u,
                                            );
                                        assert(0 <= u < t + 1 && (a, b) == line_cell(
                                            pi,
                                            pj,
                                            dir as int,
                                            u,
                                        ));
                                    } else {
                                        assert(occupied && a == ci as int && b == cj as int);
                                        assert((a, b) == cell);
                                        assert(0 <= (t as int) < t + 1 && (a, b) == line_cell(
                                            pi,
                                            pj,
                                            dir as int,
                                            t as int,
                                        ));
                                    }
                                }
                            } else {
                                if self.spec_contains(a, b) && exists|u: int|
                                    0 <= u < t + 1 && (a, b) == line_cell(pi, pj, dir as int, u) {
                                    let u = choose|u: int|
                                        0 <= u < t + 1 && (a, b) == line_cell(pi, pj, dir as int, u);
                                    if u < t {
                                        assert(before.spec_contains(a, b));
                                    } else {
                                        assert(a == ci as int && b == cj as int);
                                        assert(occupied);
                                        assert(r.spec_contains(a, b));
                                    }
                                    assert(false);
                                }
                            }
                        }
                    }
                }
                proof {
                    assert forall|a: int, b: int|
                        #![trigger r.spec_contains(a, b)]
                        r.spec_contains(a, b) == (self.spec_contains(a, b) && exists|
                            d: int,
                            t: int,
                        |
                            0 <= d < dir + 1 && 0 <= t < 7 && (a, b) == line_cell(pi, pj, d, t)
                                && spec_line_count(self, pi, pj, d) == 4) by {
                        if r.spec_contains(a, b) {
                            if prev.spec_contains(a, b) {
                                let (d, t) = choose|d: int, t: int|
                                    0 <= d < dir && 0 <= t < 7 && (a, b) == line_cell(pi, pj, d, t)
                                        && spec_line_count(self, pi, pj, d) == 4;
                                assert(0 <= d < dir + 1 && 0 <= t < 7 && (a, b) == line_cell(
                                    pi,
                                    pj,
                                    d,
                                    t,
                                ) && spec_line_count(self, pi, pj, d) == 4);
                            } else {
                                let u = choose|u: int|
                                    0 <= u < 7 && (a, b) == line_cell(pi, pj, dir as int, u);
                                assert(0 <= dir < dir + 1 && 0 <= u < 7 && (a, b)
                                    == line_cell(pi, pj, dir as int, u) && spec_line_count(
                                    self,
                                    pi,
                                    pj,
                                    dir as int,
                                ) == 4);
                            }
                        } else {
                            if self.spec_contains(a, b) && exists|d: int, t: int|
                                0 <= d < dir + 1 && 0 <= t < 7 && (a, b) == line_cell(pi, pj, d, t)
                                    && spec_line_count(self, pi, pj, d) == 4 {
                                let (d, t) = choose|d: int, t: int|
                                    0 <= d < dir + 1 && 0 <= t < 7 && (a, b) == line_cell(
                                        pi,
                                        pj,
                                        d,
                                        t,
                                    ) && spec_line_count(self, pi, pj, d) == 4;
                                if d < dir {
                                    assert(prev.spec_contains(a, b));
                                } else {
                                    assert(exists|u: int|
                                        0 <= u < 7 && (a, b) == line_cell(pi, pj, dir as int, u));
                                }
                                assert(false);
                            }
                        }
                    }
                }
            } else {
                proof {
                    assert forall|a: int, b: int|
                        #![trigger r.spec_contains(a, b)]
                        r.spec_contains(a, b) == (self.spec_contains(a, b) && exists|
                            d: int,
                            t: int,
                        |
                            0 <= d < dir + 1 && 0 <= t < 7 && (a, b) == line_cell(pi, pj, d, t)
                                && spec_line_count(self, pi, pj, d) == 4) by {
                        if !r.spec_contains(a, b) && self.spec_contains(a, b) {
                            if exists|d: int, t: int|
                                0 <= d < dir + 1 && 0 <= t < 7 && (a, b) == line_cell(pi, pj, d, t)
                                    && spec_line_count(self, pi, pj, d) == 4 {
                                let (d, t) = choose|d: int, t: int|
                                    0 <= d < dir + 1 && 0 <= t < 7 && (a, b) == line_cell(
                                        pi,
                                        pj,
                                        d,
                                        t,
                                    ) && spec_line_count(self, pi, pj, d) == 4;
                                assert(d < dir);
                                assert(prev_dir_exists(self, pi, pj, dir as int, a, b));
                            }
                        }
                    }
                }
            }
        }
        r
    }

    /// The cells of the board, by ascending occupancy bit index
    /// (row-major within the window).
    pub fn to_vec(self) -> (r: Vec<(i8, i8)>)
        ensures
            forall|k: int|
                0 <= k < r@.len() ==> self.spec_contains(
                    #[trigger] r@[k].0 as int,
                    r@[k].1 as int,
                ),
            forall|a: int, b: int|
                #![trigger self.spec_contains(a, b)]
                self.spec_contains(a, b) ==> exists|k: int|
                    0 <= k < r@.len() && #[trigger] r@[k].0 == a && r@[k].1 == b,
            forall|k1: int, k2: int|
                0 <= k1 < k2 < r@.len() ==> self.spec_idx(r@[k1].0 as int, r@[k1].1 as int)
                    < self.spec_idx(r@[k2].0 as int, r@[k2].1 as int),
    {
        let mut iter = BitBoardIter { bitboard: self };
        let mut out: Vec<(i8, i8)> = Vec::new();
        loop
            invariant
                iter.bitboard.same_offset(self),
                forall|a: int, b: int|
                    #![trigger self.spec_contains(a, b)]
                    self.spec_contains(a, b) == ((exists|k: int|
                        0 <= k < out@.len() && #[trigger] out@[k].0 == a && out@[k].1 == b)
                        || iter.bitboard.spec_contains(a, b)),
                forall|a: int, b: int|
                    #![trigger iter.bitboard.spec_contains(a, b)]
                    iter.bitboard.spec_contains(a, b) ==> self.spec_contains(a, b),
                forall|k: int|
                    0 <= k < out@.len() ==> self.spec_contains(
                        #[trigger] out@[k].0 as int,
                        out@[k].1 as int,
                    ),
                forall|k1: int, k2: int|
                    0 <= k1 < k2 < out@.len() ==> self.spec_idx(out@[k1].0 as int, out@[k1].1 as int)
                        < self.spec_idx(out@[k2].0 as int, out@[k2].1 as int),
                forall|k: int, a: int, b: int|
                    #![trigger out@[k], iter.bitboard.spec_contains(a, b)]
                    0 <= k < out@.len() && iter.bitboard.spec_contains(a, b) ==> self.spec_idx(
                        out@[k].0 as int,
                        out@[k].1 as int,
                    ) < self.spec_idx(a, b),
            ensures
                forall|a: int, b: int| !iter.bitboard.spec_contains(a, b),
            decreases iter.bitboard.spec_bits() & BOARD_MASK,
        {
            let ghost prev = iter.bitboard;
            match iter.next() {
                None => {
                    break ;
                },
                Some(cell) => {
                    let ghost prev_out = out@;
                    out.push(cell);
                    proof {
                        let n = prev_out.len() as int;
                        assert(out@[n].0 == cell.0 && out@[n].1 == cell.1);
                        assert forall|k: int| 0 <= k < out@.len() implies self.spec_contains(
                            #[trigger] out@[k].0 as int,
                            out@[k].1 as int,
                        ) by {
                            if k < prev_out.len() {
                                assert(out@[k] == prev_out[k]);
                            }
                        }
                        assert forall|a: int, b: int|
                            #![trigger self.spec_contains(a, b)]
                            self.spec_contains(a, b) == ((exists|k: int|
                                0 <= k < out@.len() && #[trigger] out@[k].0 == a && out@[k].1 == b)
                                || iter.bitboard.spec_contains(a, b)) by {
                            if self.spec_contains(a, b) {
                                if prev.spec_contains(a, b) {
                                    if a == cell.0 && b == cell.1 {
                                        assert(out@[n].0 == a && out@[n].1 == b);
                                    } else {
                                        assert(iter.bitboard.spec_contains(a, b));
                                    }
                                } else {
                                    let k = choose|k: int|
                                        0 <= k < prev_out.len() && #[trigger] prev_out[k].0 == a
                                            && prev_out[k].1 == b;
                                    assert(out@[k] == prev_out[k]);
                                    assert(out@[k].0 == a && out@[k].1 == b);
                                }
                            } else {
                                if exists|k: int|
                                    0 <= k < out@.len() && #[trigger] out@[k].0 == a && out@[k].1
                                        == b {
                                    let k = choose|k: int|
                                        0 <= k < out@.len() && #[trigger] out@[k].0 == a
                                            && out@[k].1 == b;
                                    assert(self.spec_contains(out@[k].0 as int, out@[k].1 as int));
                                    assert(false);
                                }
                                assert(!iter.bitboard.spec_contains(a, b));
                            }
                        }
                    }
                },
            }
        }
        out
    }
}

/// Whether some earlier direction already accounts for the cell; spelled
/// out as a helper so the loop proofs can name it.
spec fn prev_dir_exists(bb: BitBoard, pi: int, pj: int, dir: int, a: int, b: int) -> bool {
    exists|d: int, t: int|
        0 <= d < dir && 0 <= t < 7 && (a, b) == line_cell(pi, pj, d, t) && spec_line_count(
            bb,
            pi,
            pj,
            d,
        ) == 4
}

/// One step of the line-count recursion, unfolded.
proof fn lemma_line_count_step(bb: BitBoard, pi: int, pj: int, dir: int, t: int)
    requires
        t >= 0,
    ensures
        spec_line_count_upto(bb, pi, pj, dir, t + 1) == spec_line_count_upto(bb, pi, pj, dir, t) + (
        if bb.spec_contains(line_cell(pi, pj, dir, t).0, line_cell(pi, pj, dir, t).1) {
            1nat
        } else {
            0nat
        }),
{
}

/// The coordinates of a line-segment cell.
fn line_cell_at(pi: i8, pj: i8, dir: u8, t: u8) -> (r: (i8, i8))
    requires
        -55 <= pi <= 55,
        -55 <= pj <= 55,
        dir < 4,
        t < 7,
    ensures
        r.0 == line_cell(pi as int, pj as int, dir as int, t as int).0,
        r.1 == line_cell(pi as int, pj as int, dir as int, t as int).1,
{
    let d = (t as i8) - 3;
    if dir == 0 {
        (pi, pj + d)
    } else if dir == 1 {
        (pi + d, pj)
    } else if dir == 2 {
        (pi + d, pj + d)
    } else {
        (pi + d, pj - d)
    }
}

/// A cursor over the cells of a [`BitBoard`], by ascending bit index.
pub struct BitBoardIter {
    bitboard: BitBoard,
}

impl BitBoardIter {
    /// The board whose remaining cells the cursor will hand out.
    pub closed spec fn spec_remaining(self) -> BitBoard {
        self.bitboard
    }

    /// Hands out the cell with the smallest occupancy bit index not yet
    /// handed out, or `None` when every cell has been seen.
    pub fn next(&mut self) -> (r: Option<(i8, i8)>)
        ensures
            final (self).spec_remaining().same_offset(old(self).spec_remaining()),
            match r {
                None => {
                    &&& forall|a: int, b: int| !old(self).spec_remaining().spec_contains(a, b)
                    &&& *final (self) == *old(self)
                },
                Some(cell) => {
                    &&& old(self).spec_remaining().spec_contains(cell.0 as int, cell.1 as int)
                    &&& forall|a: int, b: int|
                        final (self).spec_remaining().spec_contains(a, b) == (old(
                            self,
                        ).spec_remaining().spec_contains(a, b) && !(a == cell.0 && b == cell.1))
                    &&& forall|a: int, b: int|
                        old(self).spec_remaining().spec_contains(a, b) ==> old(
                            self,
                        ).spec_remaining().spec_idx(cell.0 as int, cell.1 as int) <= old(
                            self,
                        ).spec_remaining().spec_idx(a, b)
                    &&& final (self).spec_remaining().spec_bits() & BOARD_MASK < old(
                        self,
                    ).spec_remaining().spec_bits() & BOARD_MASK
                },
            },
    {
        let masked = self.bitboard.bits & BOARD_MASK;
        if masked == 0 {
            proof {
                lemma_no_cells_of_empty(self.bitboard);
            }
            None
        } else {
            let ghost prev = self.bitboard;
            let tz32 = masked.trailing_zeros();
            proof {
                broadcast use vstd::std_specs::bits::axiom_u64_trailing_zeros;

                lemma_board_mask_bits(0);
                lemma_and_mask_high(self.bitboard.bits, BOARD_MASK, 49);
                assert(bit64(masked, tz32 as u64));
                if tz32 >= 49 {
                    lemma_high_bits_zero(masked, 49, tz32 as u64);
                }
                lemma_bit_pairwise(self.bitboard.bits, BOARD_MASK, tz32 as u64);
            }
            let tz = tz32 as u8;
            let (oi, oj) = self.bitboard.offset();
            proof {
                lemma_offset7_bounds(self.bitboard.bits);
            }
            let cell_i = oi + (tz / 7) as i8;
            let cell_j = oj + (tz % 7) as i8;
            proof {
                assert(prev.spec_idx(cell_i as int, cell_j as int) == tz as int);
                assert(prev.spec_contains(cell_i as int, cell_j as int));
                lemma_low_change_keeps_offsets(prev.bits, tz as u64);
                crate::bitops::lemma_clear_bit_decreases(prev.bits, tz as u64);
            }
            self.bitboard.bits = self.bitboard.bits & !(1u64 << (tz as u64));
            proof {
                broadcast use vstd::std_specs::bits::axiom_u64_trailing_zeros;

                assert forall|a: int, b: int|
                    self.bitboard.spec_contains(a, b) == (prev.spec_contains(a, b) && !(a
                        == cell_i && b == cell_j)) by {
                    if self.bitboard.spec_in_window(a, b) {
                        let k = prev.spec_idx(a, b);
                        crate::bitops::lemma_bit_clear_mask(prev.bits, tz as u64, k as u64);
                        lemma_cell_unique(
                            a - prev.spec_offset_i(),
                            b - prev.spec_offset_j(),
                            cell_i - prev.spec_offset_i(),
                            cell_j - prev.spec_offset_j(),
                        );
                    }
                }
                assert forall|a: int, b: int| prev.spec_contains(a, b) implies prev.spec_idx(
                    cell_i as int,
                    cell_j as int,
                ) <= prev.spec_idx(a, b) by {
                    let k = prev.spec_idx(a, b);
                    if k < tz {
                        assert((masked >> (k as u64)) & 1u64 == 0u64);
                        lemma_bit_pairwise(prev.bits, BOARD_MASK, k as u64);
                        lemma_board_mask_bits(k as u64);
                    }
                }
                assert forall|k: u64| k < 64 implies #[trigger] bit64(
                    self.bitboard.bits & BOARD_MASK,
                    k,
                ) == (bit64(prev.bits & BOARD_MASK, k) && k != tz) by {
                    lemma_bit_pairwise(self.bitboard.bits, BOARD_MASK, k);
                    lemma_bit_pairwise(prev.bits, BOARD_MASK, k);
                    crate::bitops::lemma_bit_clear_mask(prev.bits, tz as u64, k);
                }
                crate::bitops::lemma_bit_test(prev.bits & BOARD_MASK, tz as u64);
                lemma_masked_clear_decreases(prev.bits, tz as u64);
            }
            Some((cell_i, cell_j))
        }
    }
}

/// Clearing an occupancy bit strictly decreases the masked word.
proof fn lemma_masked_clear_decreases(x: u64, k: u64)
    requires
        k < 49,
        bit64(x & BOARD_MASK, k),
    ensures
        (x & !(1u64 << k)) & BOARD_MASK < x & BOARD_MASK,
{
    assert((k < 49 && ((x & 0x1ffffffffffffu64) >> k) & 1u64 == 1u64) ==> (x & !(1u64 << k))
        & 0x1ffffffffffffu64 < x & 0x1ffffffffffffu64) by (bit_vector);
}

/// The bits of a full-row mask at row base `t`.
proof fn lemma_row_mask_bits(t: u64, k: u64)
    requires
        t <= 42,
        k < 64,
    ensures
        (0x7fu64 << t) >> 49u64 == 0,
        bit64(0x7fu64 << t, k) == (t <= k < t + 7),
{
    assert((t <= 42 && k < 64) ==> ((0x7fu64 << t) >> 49u64 == 0 && ((((0x7fu64 << t) >> k) & 1u64
        == 1u64) == (t <= k && k < t + 7)))) by (bit_vector);
}

/// The bits of a full-column mask at column `c`.
proof fn lemma_col_mask_bits(c: u64, k: u64)
    requires
        c < 7,
        k < 64,
    ensures
        (0x40810204081u64 << c) >> 49u64 == 0,
        bit64(0x40810204081u64 << c, k) == (k % 7 == c && k < 49),
{
    assert((c < 7 && k < 64) ==> ((0x40810204081u64 << c) >> 49u64 == 0 && ((((0x40810204081u64
        << c) >> k) & 1u64 == 1u64) == (k % 7 == c && k < 49)))) by (bit_vector);
}

/// Reading a bit of a left-shifted word.
proof fn lemma_shl_bit(x: u64, s: u64, k: u64, m: u64)
    requires
        s < 64,
        k < 64,
        k >= s ==> m == k - s,
    ensures
        k >= s ==> bit64(x << s, k) == bit64(x, m),
        k < s ==> !bit64(x << s, k),
{
    assert((s < 64 && k < 64) ==> ((k >= s && m == k - s) ==> ((((x << s) >> k) & 1u64 == 1u64) == (
    ((x >> m) & 1u64) == 1u64))) && ((k < s) ==> !(((x << s) >> k) & 1u64 == 1u64)))
        by (bit_vector);
}

/// Reading a bit of a right-shifted word.
proof fn lemma_shr_bit(x: u64, s: u64, k: u64, m: u64)
    requires
        s < 64,
        k < 64,
        m == k + s,
    ensures
        m < 64 ==> bit64(x >> s, k) == bit64(x, m),
        m >= 64 ==> !bit64(x >> s, k),
{
    assert((s < 64 && k < 64 && m == k + s) ==> ((m < 64 ==> ((((x >> s) >> k) & 1u64 == 1u64) == ((
    (x >> m) & 1u64) == 1u64))) && (m >= 64 ==> !(((x >> s) >> k) & 1u64 == 1u64))))
        by (bit_vector);
}

/// Combining an offset-only word with an occupancy-only word keeps the
/// offset fields of the first and the occupancy bits of the second.
proof fn lemma_or_split_words(x: u64, y: u64, k: u64)
    requires
        x & BOARD_MASK == 0,
        y >> 49u64 == 0,
        k < 49,
    ensures
        ((x | y) >> 56u64) & 0x7fu64 == (x >> 56u64) & 0x7fu64,
        ((x | y) >> 49u64) & 0x7fu64 == (x >> 49u64) & 0x7fu64,
        bit64(x | y, k) == bit64(y, k),
{
    assert((x & 0x1ffffffffffffu64 == 0 && y >> 49u64 == 0 && k < 49) ==> (((x | y) >> 56u64)
        & 0x7fu64 == (x >> 56u64) & 0x7fu64 && ((x | y) >> 49u64) & 0x7fu64 == (x >> 49u64)
        & 0x7fu64 && ((((x | y) >> k) & 1u64) == 1u64) == (((y >> k) & 1u64) == 1u64)))
        by (bit_vector);
}

/// Shifts the 49-bit occupancy field of `bits` by `delta` rows and
/// columns, dropping every bit whose source or target lies outside the
/// 7 x 7 window ("lossy").
pub fn shift_2d_lossy(bits: u64, delta: (i8, i8)) -> (r: u64)
    ensures
        r >> 49u64 == 0,
        forall|a: int, b: int|
            #![trigger bit64(r, (a * 7 + b) as u64)]
            0 <= a < 7 && 0 <= b < 7 ==> bit64(r, (a * 7 + b) as u64) == (0 <= a - delta.0 < 7 && 0
                <= b - delta.1 < 7 && bit64(bits, ((a - delta.0) * 7 + (b - delta.1)) as u64)),
{
    let (di, dj) = delta;
    let mut mask_i: u64 = 0;
    proof {
        assert(0u64 >> 49u64 == 0) by (bit_vector);
        assert forall|k: u64| k < 49 implies !bit64(0u64, k) by {
            crate::bitops::lemma_zero_no_bits(k);
        }
    }
    for sr in 0..7u8
        invariant
            mask_i >> 49u64 == 0,
            forall|k: u64|
                k < 49 ==> #[trigger] bit64(mask_i, k) == (k / 7 < sr && 0 <= k / 7 + di < 7),
    {
        let t = sr as i16 + di as i16;
        let ghost prev = mask_i;
        if 0 <= t && t < 7 {
            mask_i = mask_i | (0x7fu64 << ((7 * sr) as u64));
            proof {
                lemma_row_mask_bits((7 * sr) as u64, 0);
                lemma_ops_preserve_high_helper(prev, 0x7fu64 << ((7 * sr) as u64));
                assert forall|k: u64| k < 49 implies #[trigger] bit64(mask_i, k) == (k / 7 < sr + 1
                    && 0 <= k / 7 + di < 7) by {
                    lemma_bit_pairwise(prev, 0x7fu64 << ((7 * sr) as u64), k);
                    lemma_row_mask_bits((7 * sr) as u64, k);
                    assert((7 * sr <= k < 7 * sr + 7) == (k / 7 == sr));
                }
            }
        } else {
            proof {
                assert forall|k: u64| k < 49 implies #[trigger] bit64(mask_i, k) == (k / 7 < sr + 1
                    && 0 <= k / 7 + di < 7) by {
                    assert((k / 7 == sr) ==> !(0 <= k / 7 + di < 7));
                }
            }
        }
    }
    let mut mask_j: u64 = 0;
    proof {
        assert(0u64 >> 49u64 == 0) by (bit_vector);
        assert forall|k: u64| k < 49 implies !bit64(0u64, k) by {
            crate::bitops::lemma_zero_no_bits(k);
        }
    }
    for sc in 0..7u8
        invariant
            mask_j >> 49u64 == 0,
            forall|k: u64|
                k < 49 ==> #[trigger] bit64(mask_j, k) == (k % 7 < sc && 0 <= k % 7 + dj < 7),
    {
        let t = sc as i16 + dj as i16;
        let ghost prev = mask_j;
        if 0 <= t && t < 7 {
            mask_j = mask_j | (0x40810204081u64 << (sc as u64));
            proof {
                lemma_col_mask_bits(sc as u64, 0);
                lemma_ops_preserve_high_helper(prev, 0x40810204081u64 << (sc as u64));
                assert forall|k: u64| k < 49 implies #[trigger] bit64(mask_j, k) == (k % 7 < sc + 1
                    && 0 <= k % 7 + dj < 7) by {
                    lemma_bit_pairwise(prev, 0x40810204081u64 << (sc as u64), k);
                    lemma_col_mask_bits(sc as u64, k);
                }
            }
        } else {
            proof {
                assert forall|k: u64| k < 49 implies #[trigger] bit64(mask_j, k) == (k % 7 < sc + 1
                    && 0 <= k % 7 + dj < 7) by {
                    assert((k % 7 == sc) ==> !(0 <= k % 7 + dj < 7));
                }
            }
        }
    }
    let valid = bits & mask_i & mask_j;
    proof {
        lemma_and_mask_high(bits & mask_i, mask_j, 49);
        assert forall|k: u64| k < 49 implies #[trigger] bit64(valid, k) == (bit64(bits, k) && 0 <= k
            / 7 + di < 7 && 0 <= k % 7 + dj < 7) by {
            lemma_bit_pairwise(bits & mask_i, mask_j, k);
            lemma_bit_pairwise(bits, mask_i, k);
        }
    }
    if valid == 0 {
        proof {
            assert(0u64 >> 49u64 == 0) by (bit_vector);
            assert forall|a: int, b: int|
                #![trigger bit64(0u64, (a * 7 + b) as u64)]
                0 <= a < 7 && 0 <= b < 7 implies bit64(0u64, (a * 7 + b) as u64) == (0 <= a - di < 7
                && 0 <= b - dj < 7 && bit64(bits, ((a - di) * 7 + (b - dj)) as u64)) by {
                crate::bitops::lemma_zero_no_bits((a * 7 + b) as u64);
                if 0 <= a - di < 7 && 0 <= b - dj < 7 {
                    let m = ((a - di) * 7 + (b - dj)) as u64;
                    assert(m / 7 == a - di && m % 7 == b - dj) by (nonlinear_arith)
                        requires
                            m == (a - di) * 7 + (b - dj) && 0 <= a - di < 7 && 0 <= b - dj < 7,
                    ;
                    assert(!bit64(valid, m));
                    crate::bitops::lemma_zero_no_bits(m);
                }
            }
        }
        return 0;
    }
    proof {
        broadcast use vstd::std_specs::bits::axiom_u64_trailing_zeros;

        let tz = u64::trailing_zeros(valid) as u64;
        assert(bit64(valid, tz));
        if tz >= 49 {
            lemma_high_bits_zero(valid, 49, tz);
        }
        assert(0 <= tz / 7 + di < 7 && 0 <= tz % 7 + dj < 7);
        assert(-7 < di < 7 && -7 < dj < 7);
    }
    let s16: i16 = (di as i16) * 7 + (dj as i16);
    let r = if s16 >= 0 {
        valid << (s16 as u64)
    } else {
        valid >> ((-s16) as u64)
    };
    proof {
        let s = s16 as int;
        assert forall|a: int, b: int|
            #![trigger bit64(r, (a * 7 + b) as u64)]
            0 <= a < 7 && 0 <= b < 7 implies bit64(r, (a * 7 + b) as u64) == (0 <= a - di < 7 && 0
            <= b - dj < 7 && bit64(bits, ((a - di) * 7 + (b - dj)) as u64)) by {
            let k = (a * 7 + b) as u64;
            if 0 <= a - di < 7 && 0 <= b - dj < 7 {
                let m = ((a - di) * 7 + (b - dj)) as u64;
                assert(m / 7 == a - di && m % 7 == b - dj) by (nonlinear_arith)
                    requires
                        m == (a - di) * 7 + (b - dj) && 0 <= a - di < 7 && 0 <= b - dj < 7,
                ;
                assert(m == k - s);
                if s16 >= 0 {
                    lemma_shl_bit(valid, s16 as u64, k, m);
                } else {
                    lemma_shr_bit(valid, (-s16) as u64, k, m);
                }
                assert(bit64(r, k) == bit64(valid, m));
            } else {
                if s16 >= 0 && k >= s {
                    let m = (k - s) as u64;
                    lemma_shl_bit(valid, s16 as u64, k, m);
                    if bit64(valid, m) {
                        if m >= 49 {
                            lemma_high_bits_zero(valid, 49, m);
                        }
                        let sa = m / 7;
                        let sb = m % 7;
                        assert(m == sa * 7 + sb);
                        assert(k == (sa + di) * 7 + (sb + dj));
                        lemma_cell_unique(a, b, sa + di, sb + dj);
                    }
                    assert(!bit64(r, k));
                } else if s16 >= 0 {
                    lemma_shl_bit(valid, s16 as u64, k, 0);
                } else {
                    let m = (k - s) as u64;
                    lemma_shr_bit(valid, (-s16) as u64, k, m);
                    if m < 64 && bit64(valid, m) {
                        if m >= 49 {
                            lemma_high_bits_zero(valid, 49, m);
                        }
                        let sa = m / 7;
                        let sb = m % 7;
                        assert(m == sa * 7 + sb);
                        assert(k == (sa + di) * 7 + (sb + dj));
                        lemma_cell_unique(a, b, sa + di, sb + dj);
                    }
                    assert(!bit64(r, k));
                }
            }
        }
        if s16 >= 0 {
            lemma_shl_keeps_window(valid, s16 as u64);
        } else {
            lemma_shr_keeps_window(valid, (-s16) as u64);
        }
    }
    r
}

/// A left shift of a masked window word by less than 49 stays in 49 bits
/// when every shifted row survives the row mask; here the row mask has
/// already cut the rows, so the shift cannot carry a bit past bit 48.
proof fn lemma_shl_keeps_window(valid: u64, s: u64)
    requires
        valid >> 49u64 == 0,
        s < 49,
        forall|k: u64| k < 49 && #[trigger] bit64(valid, k) ==> k + s < 49,
    ensures
        (valid << s) >> 49u64 == 0,
{
    assert forall|k: u64| 49 <= k < 64 implies !bit64(valid << s, k) by {
        if k >= s {
            let m = (k - s) as u64;
            lemma_shl_bit(valid, s, k, m);
            if bit64(valid, m) {
                if m >= 49 {
                    lemma_high_bits_zero(valid, 49, m);
                }
            }
        } else {
            lemma_shl_bit(valid, s, k, 0);
        }
    }
    lemma_high_word_zero(valid << s);
}

/// A right shift keeps a 49-bit word inside 49 bits.
proof fn lemma_shr_keeps_window(valid: u64, s: u64)
    requires
        valid >> 49u64 == 0,
        s < 64,
    ensures
        (valid >> s) >> 49u64 == 0,
{
    assert forall|k: u64| 49 <= k < 64 implies !bit64(valid >> s, k) by {
        if k + s < 64 {
            lemma_shr_bit(valid, s, k, (k + s) as u64);
            if bit64(valid, (k + s) as u64) {
                lemma_high_bits_zero(valid, 49, (k + s) as u64);
            }
        } else {
            lemma_shr_bit(valid, s, k, (k + s) as u64);
        }
    }
    lemma_high_word_zero(valid >> s);
}

/// A word with no bit at or above 49 shifts to zero at 49.
proof fn lemma_high_word_zero(x: u64)
    requires
        forall|k: u64| 49 <= k < 64 ==> !bit64(x, k),
    ensures
        x >> 49u64 == 0,
{
    assert(!bit64(x, 49u64) && !bit64(x, 50u64) && !bit64(x, 51u64) && !bit64(x, 52u64) && !bit64(
        x,
        53u64,
    ) && !bit64(x, 54u64) && !bit64(x, 55u64) && !bit64(x, 56u64) && !bit64(x, 57u64) && !bit64(
        x,
        58u64,
    ) && !bit64(x, 59u64) && !bit64(x, 60u64) && !bit64(x, 61u64) && !bit64(x, 62u64) && !bit64(
        x,
        63u64,
    ));
    assert((!(((x >> 49u64) & 1u64) == 1u64) && !(((x >> 50u64) & 1u64) == 1u64) && !(((x
        >> 51u64) & 1u64) == 1u64) && !(((x >> 52u64) & 1u64) == 1u64) && !(((x >> 53u64) & 1u64)
        == 1u64) && !(((x >> 54u64) & 1u64) == 1u64) && !(((x >> 55u64) & 1u64) == 1u64) && !(((x
        >> 56u64) & 1u64) == 1u64) && !(((x >> 57u64) & 1u64) == 1u64) && !(((x >> 58u64) & 1u64)
        == 1u64) && !(((x >> 59u64) & 1u64) == 1u64) && !(((x >> 60u64) & 1u64) == 1u64) && !(((x
        >> 61u64) & 1u64) == 1u64) && !(((x >> 62u64) & 1u64) == 1u64) && !(((x >> 63u64) & 1u64)
        == 1u64)) ==> x >> 49u64 == 0) by (bit_vector);
}

/// Helper: or-combining two 49-bit words stays within 49 bits.
proof fn lemma_ops_preserve_high_helper(x: u64, y: u64)
    requires
        x >> 49u64 == 0,
        y >> 49u64 == 0,
    ensures
        (x | y) >> 49u64 == 0,
{
    crate::bitops::lemma_ops_preserve_high(x, y, 49);
}

/// The offset fields of two boards with equal offsets are equal.
proof fn lemma_offset_fields_from_offsets(x: BitBoard, y: BitBoard)
    requires
        x.same_offset(y),
    ensures
        (x.bits >> 56u64) & 0x7fu64 == (y.bits >> 56u64) & 0x7fu64,
        (x.bits >> 49u64) & 0x7fu64 == (y.bits >> 49u64) & 0x7fu64,
{
    lemma_offset7_bounds(x.bits);
    lemma_offset7_bounds(y.bits);
}

/// The offset fields decode to values in [-64, 64).
proof fn lemma_offset7_bounds(x: u64)
    ensures
        (x >> 56u64) & 0x7fu64 < 128,
        (x >> 49u64) & 0x7fu64 < 128,
{
    assert((x >> 56u64) & 0x7fu64 < 128 && (x >> 49u64) & 0x7fu64 < 128) by (bit_vector);
}

/// A word without occupancy bits contains no cell.
proof fn lemma_no_cells_of_empty(bb: BitBoard)
    requires
        bb.bits & BOARD_MASK == 0,
    ensures
        forall|i: int, j: int| !bb.spec_contains(i, j),
{
    assert forall|i: int, j: int| !bb.spec_contains(i, j) by {
        if bb.spec_in_window(i, j) {
            let k = bb.spec_idx(i, j) as u64;
            lemma_board_mask_bits(k);
            lemma_bit_pairwise(bb.bits, BOARD_MASK, k);
            crate::bitops::lemma_zero_no_bits(k);
        }
    }
}

/// The number of set occupancy bits is the number of occupied cells.
proof fn lemma_cells_card(bb: BitBoard)
    ensures
        bb.spec_cells().finite(),
        bb.spec_cells().len() == popcount(bb.bits & BOARD_MASK),
{
    let y = bb.bits & BOARD_MASK;
    let bset = bit_index_set(y);
    lemma_popcount_card(y);
    let oi = bb.spec_offset_i();
    let oj = bb.spec_offset_j();
    let f = |k: int| (oi + k / 7, oj + k % 7);
    let mapped = bset.map(f);
    assert forall|k: int| #[trigger] bset.contains(k) implies 0 <= k < 49 && bit64(
        bb.bits,
        k as u64,
    ) by {
        lemma_board_mask_bits(k as u64);
        lemma_and_mask_high(bb.bits, BOARD_MASK, 49);
        if k >= 49 {
            lemma_high_bits_zero(y, 49, k as u64);
        }
        lemma_bit_pairwise(bb.bits, BOARD_MASK, k as u64);
    }
    assert forall|p: (int, int)| #[trigger] bb.spec_cells().contains(p) implies mapped.contains(
        p,
    ) by {
        let k = bb.spec_idx(p.0, p.1);
        assert(0 <= k < 49);
        assert(k / 7 == p.0 - oi && k % 7 == p.1 - oj) by (nonlinear_arith)
            requires
                k == (p.0 - oi) * 7 + (p.1 - oj) && 0 <= p.0 - oi < 7 && 0 <= p.1 - oj < 7,
        ;
        lemma_board_mask_bits(k as u64);
        lemma_bit_pairwise(bb.bits, BOARD_MASK, k as u64);
        assert(bset.contains(k));
        assert(f(k) == p);
    }
    assert forall|p: (int, int)| #[trigger] mapped.contains(p) implies bb.spec_cells().contains(
        p,
    ) by {
        let k = choose|k: int| bset.contains(k) && f(k) == p;
        assert(0 <= k / 7 < 7 && 0 <= k % 7 < 7);
        assert(bb.spec_idx(p.0, p.1) == k);
        assert(bb.spec_contains(p.0, p.1));
    }
    assert(mapped =~= bb.spec_cells());
    assert(vstd::relations::injective_on(f, bset)) by {
        assert forall|k1: int, k2: int|
            #![trigger bset.contains(k1), bset.contains(k2)]
            bset.contains(k1) && bset.contains(k2) && f(k1) == f(k2) implies k1 == k2 by {
            assert(k1 == 7 * (k1 / 7) + k1 % 7);
            assert(k2 == 7 * (k2 / 7) + k2 % 7);
        }
    }
    vstd::set_lib::lemma_map_size(bset, mapped, f);
}

} // verus!
