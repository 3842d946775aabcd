//! Sets of cells held as the bits of a `u16`, and the facts about them that
//! the board needs: which indices are set, in what order, and how many.

use vstd::prelude::*;

verus! {

/// Whether bit `k` of `x` is set.
pub open spec fn bit_set(x: u16, k: u16) -> bool {
    k < 16 && (x >> k) & 1 == 1
}

/// The indices of the set bits of `x` at `k` and above, in increasing order.
pub open spec fn bits_from(x: u16, k: u16) -> Seq<u16>
    decreases 16 - k,
{
    if k >= 16 {
        Seq::empty()
    } else if bit_set(x, k) {
        seq![k] + bits_from(x, (k + 1) as u16)
    } else {
        bits_from(x, (k + 1) as u16)
    }
}

/// The indices of the set bits of `x`, in increasing order.
pub open spec fn bit_indices(x: u16) -> Seq<u16> {
    bits_from(x, 0)
}

/// The number of set bits of `x`.
pub open spec fn popcount(x: u16) -> nat {
    bit_indices(x).len()
}

/// The bits below `k`.
pub open spec fn low_mask(k: u16) -> u16 {
    if k >= 16 {
        0xffff
    } else {
        ((1u16 << k) - 1) as u16
    }
}

proof fn lemma_bit_of_cleared(x: u16, k: u16, m: u16)
    by (bit_vector)
    requires
        k < 16,
        m < 16,
    ensures
        m != k ==> ((x & !(1u16 << k)) >> m) & 1 == (x >> m) & 1,
        ((x & !(1u16 << k)) >> k) & 1 == 0,
{
}

proof fn lemma_bit_below_mask(x: u16, f: u16, m: u16)
    by (bit_vector)
    requires
        m < f,
        f < 16,
        x & (((1u16 << f) - 1) as u16) == 0,
    ensures
        (x >> m) & 1 == 0,
{
}

proof fn lemma_mask_grows(x: u16, j: u16)
    by (bit_vector)
    requires
        j < 16,
        x & (((1u16 << j) - 1) as u16) == 0,
        (x >> j) & 1 != 1,
    ensures
        j + 1 < 16 ==> x & (((1u16 << (j + 1) as u16) - 1) as u16) == 0,
        j + 1 == 16 ==> x == 0,
{
}

proof fn lemma_isolate_lowest(x: u16, f: u16)
    by (bit_vector)
    requires
        f < 16,
        x & (((1u16 << f) - 1) as u16) == 0,
        (x >> f) & 1 == 1,
    ensures
        x != 0,
        x & !((x - 1) as u16) == 1u16 << f,
{
}

/// Every element of `bits_from(x, k)` is a set bit at `k` or above, every
/// such bit is listed, and the list is strictly increasing.
pub proof fn lemma_bits_from_shape(x: u16, k: u16)
    requires
        k <= 16,
    ensures
        bits_from(x, k).len() <= 16 - k,
        forall|i: int|
            0 <= i < bits_from(x, k).len() ==> k <= #[trigger] bits_from(x, k)[i] < 16 && bit_set(
                x,
                bits_from(x, k)[i],
            ),
        forall|i: int, j: int|
            0 <= i < j < bits_from(x, k).len() ==> #[trigger] bits_from(x, k)[i]
                < #[trigger] bits_from(x, k)[j],
        forall|e: u16| k <= e < 16 && bit_set(x, e) ==> #[trigger] bits_from(x, k).contains(e),
    decreases 16 - k,
{
    if k < 16 {
        let next = (k + 1) as u16;
        lemma_bits_from_shape(x, next);
        let s = bits_from(x, k);
        let t = bits_from(x, next);
        if bit_set(x, k) {
            assert(s == seq![k] + t);
            assert forall|e: u16| k <= e < 16 && bit_set(x, e) implies #[trigger] s.contains(e) by {
                if e == k {
                    assert(s[0] == e);
                } else {
                    assert(t.contains(e));
                    let i = choose|i: int| 0 <= i < t.len() && t[i] == e;
                    assert(s[i + 1] == e);
                }
            }
        }
    }
}

/// `bits_from` reads only the bits at `k` and above.
pub proof fn lemma_bits_agree(x: u16, y: u16, k: u16)
    requires
        k <= 16,
        forall|m: u16| k <= m < 16 ==> bit_set(x, m) == bit_set(y, m),
    ensures
        bits_from(x, k) == bits_from(y, k),
    decreases 16 - k,
{
    if k < 16 {
        lemma_bits_agree(x, y, (k + 1) as u16);
    }
}

/// Clear bits between `j` and `k` add nothing to the list.
pub proof fn lemma_skip_clear(x: u16, j: u16, k: u16)
    requires
        j <= k <= 16,
        forall|m: u16| j <= m < k ==> !bit_set(x, m),
    ensures
        bits_from(x, j) == bits_from(x, k),
    decreases k - j,
{
    if j < k {
        lemma_skip_clear(x, (j + 1) as u16, k);
    }
}

/// The first set bit at or above `j`, where none is set below `j`.
pub proof fn lemma_first_set(x: u16, j: u16) -> (f: u16)
    requires
        j < 16,
        x != 0,
        x & low_mask(j) == 0,
    ensures
        j <= f < 16,
        bit_set(x, f),
        x & low_mask(f) == 0,
        bits_from(x, j) == seq![f] + bits_from(x, (f + 1) as u16),
    decreases 16 - j,
{
    if bit_set(x, j) {
        j
    } else {
        lemma_mask_grows(x, j);
        let f = lemma_first_set(x, (j + 1) as u16);
        f
    }
}

/// Clearing the lowest set bit `f` leaves the indices above it.
pub proof fn lemma_clear_lowest(x: u16, f: u16)
    requires
        f < 16,
        bit_set(x, f),
        x & low_mask(f) == 0,
    ensures
        bit_indices(x & !(1u16 << f)) == bits_from(x, (f + 1) as u16),
{
    let y = x & !(1u16 << f);
    assert forall|m: u16| 0 <= m < f + 1 implies !bit_set(y, m) by {
        lemma_bit_of_cleared(x, f, m);
        if m < f {
            lemma_bit_below_mask(x, f, m);
        }
    }
    lemma_skip_clear(y, 0, (f + 1) as u16);
    assert forall|m: u16| f + 1 <= m < 16 implies bit_set(y, m) == bit_set(x, m) by {
        lemma_bit_of_cleared(x, f, m);
    }
    lemma_bits_agree(y, x, (f + 1) as u16);
}

/// Clearing one set bit removes exactly one index.
pub proof fn lemma_remove_bit(x: u16, k: u16, j: u16)
    requires
        j <= k < 16,
        bit_set(x, k),
    ensures
        bits_from(x & !(1u16 << k), j).len() + 1 == bits_from(x, j).len(),
    decreases k - j,
{
    let y = x & !(1u16 << k);
    lemma_bit_of_cleared(x, k, j);
    if j == k {
        assert forall|m: u16| k + 1 <= m < 16 implies bit_set(y, m) == bit_set(x, m) by {
            lemma_bit_of_cleared(x, k, m);
        }
        lemma_bits_agree(y, x, (k + 1) as u16);
    } else {
        lemma_remove_bit(x, k, (j + 1) as u16);
    }
}

/// Returns `bits` with all but its lowest set bit cleared (0 when `bits` is 0).
pub fn lowest_bit16(bits: u16) -> (r: u16)
    ensures
        bits == 0 ==> r == 0,
        bits != 0 ==> bit_indices(bits).len() > 0 && r == 1u16 << bit_indices(bits)[0],
{
    if bits != 0 {
        proof {
            assert(bits & low_mask(0) == 0) by (bit_vector);
            let f = lemma_first_set(bits, 0);
            lemma_isolate_lowest(bits, f);
        }
        bits & !(bits - 1)
    } else {
        0
    }
}

/// Returns the number of set bits of `x`.
pub fn count_ones(x: u16) -> (r: u32)
    ensures
        r == popcount(x),
        r <= 16,
{
    let mut n: u32 = 0;
    let mut k: u16 = 0;
    while k < 16
        invariant
            k <= 16,
            n <= k,
            n + bits_from(x, k).len() == popcount(x),
        decreases 16 - k,
    {
        let b = (x >> k) & 1;
        proof {
            assert(b == 0 || b == 1) by (bit_vector)
                requires
                    b == (x >> k) & 1,
            ;
        }
        n += b as u32;
        k += 1;
    }
    n
}

} // verus!
