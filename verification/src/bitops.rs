//! Word-level helpers shared by the bit-packed set and board types:
//! a single-bit reading spec, a population count, and the lemmas that
//! relate the machine operations to those specs.

use vstd::prelude::*;
use vstd::set_lib::lemma_len_subset;
use vstd::set_lib::lemma_map_size;
use vstd::set_lib::lemma_int_range;
use vstd::set_lib::set_int_range;

verus! {

/// Whether bit `k` of `x` is set.
pub open spec fn bit64(x: u64, k: u64) -> bool {
    (x >> k) & 1u64 == 1u64
}

/// The number of set bits in `x`.
pub open spec fn popcount(x: u64) -> nat
    decreases x,
{
    if x == 0 {
        0
    } else {
        ((x % 2) as nat + popcount(x / 2)) as nat
    }
}

/// The set of indices of the set bits of `x`.
pub open spec fn bit_index_set(x: u64) -> Set<int> {
    Set::new(|k: int| 0 <= k < 64 && bit64(x, k as u64))
}

/// Setting bit `k` sets exactly that bit.
pub proof fn lemma_bit_or_mask(x: u64, k: u64, m: u64)
    requires
        k < 64,
        m < 64,
    ensures
        bit64(x | (1u64 << k), m) == (bit64(x, m) || m == k),
{
    assert((((x | (1u64 << k)) >> m) & 1u64 == 1u64) == (((x >> m) & 1u64 == 1u64) || m == k))
        by (bit_vector)
        requires
            k < 64 && m < 64,
    ;
}

/// Clearing bit `k` clears exactly that bit.
pub proof fn lemma_bit_clear_mask(x: u64, k: u64, m: u64)
    requires
        k < 64,
        m < 64,
    ensures
        bit64(x & !(1u64 << k), m) == (bit64(x, m) && m != k),
{
    assert((((x & !(1u64 << k)) >> m) & 1u64 == 1u64) == (((x >> m) & 1u64 == 1u64) && m != k))
        by (bit_vector)
        requires
            k < 64 && m < 64,
    ;
}

/// Bitwise and, or and xor act independently on every bit.
pub proof fn lemma_bit_pairwise(x: u64, y: u64, m: u64)
    requires
        m < 64,
    ensures
        bit64(x & y, m) == (bit64(x, m) && bit64(y, m)),
        bit64(x | y, m) == (bit64(x, m) || bit64(y, m)),
        bit64(x ^ y, m) == (bit64(x, m) != bit64(y, m)),
        bit64(!x, m) == !bit64(x, m),
{
    assert(

        ((((x & y) >> m) & 1u64 == 1u64) == (((x >> m) & 1u64 == 1u64) && ((y >> m) & 1u64
            == 1u64))) && ((((x | y) >> m) & 1u64 == 1u64) == (((x >> m) & 1u64 == 1u64) || ((y
            >> m) & 1u64 == 1u64))) && ((((x ^ y) >> m) & 1u64 == 1u64) == (((x >> m) & 1u64
            == 1u64) != ((y >> m) & 1u64 == 1u64))) && ((((!x) >> m) & 1u64 == 1u64) == !((x >> m)
            & 1u64 == 1u64))) by (bit_vector)
        requires
            m < 64,
    ;
}

/// Testing against a single-bit mask is the same as reading that bit.
pub proof fn lemma_bit_test(x: u64, k: u64)
    requires
        k < 64,
    ensures
        (x & (1u64 << k) != 0) == bit64(x, k),
{
    assert((x & (1u64 << k) != 0) == ((x >> k) & 1u64 == 1u64)) by (bit_vector)
        requires
            k < 64,
    ;
}

/// A word whose bits at and above `w` are zero has no bit set at or above `w`.
pub proof fn lemma_high_bits_zero(x: u64, w: u64, k: u64)
    requires
        x >> w == 0,
        w <= k < 64,
    ensures
        !bit64(x, k),
{
    assert((x >> w == 0 && w <= k < 64) ==> ((x >> k) & 1u64 != 1u64)) by (bit_vector);
}

/// A word with no bit set below `w` and none at or above `w` is zero.
pub proof fn lemma_no_bits_zero(x: u64, w: u64)
    requires
        w < 64,
        x >> w == 0,
        forall|k: u64| k < w ==> !bit64(x, k),
    ensures
        x == 0,
{
    if x != 0 {
        broadcast use vstd::std_specs::bits::axiom_u64_trailing_zeros;

        let tz = u64::trailing_zeros(x) as u64;
        assert(bit64(x, tz));
        if tz >= w {
            lemma_high_bits_zero(x, w, tz);
        }
    }
}

/// The zero word has no bit set.
pub proof fn lemma_zero_no_bits(k: u64)
    requires
        k < 64,
    ensures
        !bit64(0u64, k),
{
    assert(!((0u64 >> k) & 1u64 == 1u64)) by (bit_vector)
        requires
            k < 64,
    ;
}

/// Combining two words whose bits at and above `w` are zero gives
/// words of the same shape.
pub proof fn lemma_ops_preserve_high(x: u64, y: u64, w: u64)
    requires
        x >> w == 0,
        y >> w == 0,
        w < 64,
    ensures
        (x | y) >> w == 0,
        (x & y) >> w == 0,
        (x ^ y) >> w == 0,
        (x & !y) >> w == 0,
{
    assert((x >> w == 0 && y >> w == 0 && w < 64) ==> ((x | y) >> w == 0 && (x & y) >> w == 0 && (x
        ^ y) >> w == 0 && (x & !y) >> w == 0)) by (bit_vector);
}

/// Setting or clearing a bit below `w` keeps the bits at and above `w` zero.
pub proof fn lemma_mask_preserve_high(x: u64, k: u64, w: u64)
    requires
        x >> w == 0,
        k < w < 64,
    ensures
        (x | (1u64 << k)) >> w == 0,
        (x & !(1u64 << k)) >> w == 0,
{
    assert((x >> w == 0 && k < w < 64) ==> ((x | (1u64 << k)) >> w == 0 && (x & !(1u64 << k)) >> w
        == 0)) by (bit_vector);
}

/// Masking with a word whose bits at and above `w` are zero bounds the result.
pub proof fn lemma_and_mask_high(x: u64, m: u64, w: u64)
    requires
        m >> w == 0,
        w < 64,
    ensures
        (x & m) >> w == 0,
{
    assert((m >> w == 0 && w < 64) ==> (x & m) >> w == 0) by (bit_vector);
}

/// Clearing a set bit strictly decreases the word.
pub proof fn lemma_clear_bit_decreases(x: u64, k: u64)
    requires
        k < 64,
        bit64(x, k),
    ensures
        x & !(1u64 << k) < x,
{
    assert((k < 64 && (x >> k) & 1u64 == 1u64) ==> x & !(1u64 << k) < x) by (bit_vector);
}

/// Bit 0 is the parity, and the bits of `x / 2` are the bits of `x`
/// moved down by one.
proof fn lemma_bit_halving(x: u64, k: u64)
    requires
        k < 63,
    ensures
        bit64(x, 0) == (x % 2 == 1),
        bit64(x / 2, k) == bit64(x, (k + 1) as u64),
        !bit64(x / 2, 63),
{
    let k1 = (k + 1) as u64;
    assert((((x >> 0u64) & 1u64 == 1u64) == (x % 2 == 1)) && ((((x / 2) >> k) & 1u64 == 1u64) == ((
    x >> k1) & 1u64 == 1u64)) && !(((x / 2) >> 63u64) & 1u64 == 1u64)) by (bit_vector)
        requires
            k < 63 && k1 == k + 1,
    ;
}

/// The population count of a word is the size of its set of bit indices.
pub proof fn lemma_popcount_card(x: u64)
    ensures
        bit_index_set(x).finite(),
        bit_index_set(x).len() == popcount(x),
    decreases x,
{
    let s = bit_index_set(x);
    if x == 0 {
        assert forall|k: int| 0 <= k < 64 implies !#[trigger] bit64(0u64, k as u64) by {
            let kk = k as u64;
            assert(!((0u64 >> kk) & 1u64 == 1u64)) by (bit_vector);
        }
        assert(s =~= Set::<int>::empty());
    } else {
        lemma_popcount_card(x / 2);
        let s2 = bit_index_set(x / 2);
        let f = |k: int| k + 1;
        let shifted = s2.map(f);
        assert forall|k: int| 0 <= k < 63 implies #[trigger] bit64(x / 2, k as u64) == bit64(
            x,
            (k + 1) as u64,
        ) by {
            lemma_bit_halving(x, k as u64);
        }
        lemma_bit_halving(x, 0);
        assert(!bit64(x / 2, 63u64));
        assert forall|e: int| #[trigger] shifted.contains(e) implies 1 <= e < 64 && bit64(
            x,
            e as u64,
        ) by {
            let w = choose|w: int| s2.contains(w) && f(w) == e;
            assert(s2.contains(w));
            assert(w < 63) by {
                if w == 63 {
                    assert(!bit64(x / 2, 63u64));
                }
            }
        }
        assert forall|e: int| 1 <= e < 64 && bit64(x, e as u64) implies shifted.contains(e) by {
            assert(s2.contains(e - 1));
            assert(f(e - 1) == e);
        }
        s2.lemma_map_finite(f);
        lemma_map_size(s2, shifted, f);
        if x % 2 == 1 {
            assert(s =~= shifted.insert(0));
            assert(!shifted.contains(0));
            assert(s.len() == shifted.len() + 1);
        } else {
            assert(!bit64(x, 0u64));
            assert(s =~= shifted);
        }
    }
}

/// A word has at most 64 set bits.
pub proof fn lemma_popcount_le_64(x: u64)
    ensures
        popcount(x) <= 64,
{
    lemma_popcount_card(x);
    lemma_int_range(0, 64);
    lemma_len_subset(bit_index_set(x), set_int_range(0, 64));
}

/// Counts the set bits of `x`.
pub fn count_bits(x: u64) -> (r: u32)
    ensures
        r == popcount(x),
{
    let mut rest = x;
    let mut count: u32 = 0;
    proof {
        lemma_popcount_le_64(x);
    }
    while rest != 0
        invariant
            count + popcount(rest) == popcount(x),
            popcount(x) <= 64,
        decreases rest,
    {
        proof {
            lemma_bit_halving(rest, 0);
            assert(rest & 1u64 == rest % 2) by (bit_vector);
            assert(rest >> 1u64 == rest / 2) by (bit_vector);
        }
        count = count + (rest & 1) as u32;
        rest = rest >> 1u64;
    }
    count
}

} // verus!
