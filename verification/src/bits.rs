//! Thirty two yes-or-noes in one number.

use vstd::prelude::*;

verus! {

/// Whether bit `i` of a mask is set.
pub open spec fn bit(mask: u32, i: u32) -> bool {
    mask & (1u32 << i) != 0
}

/// The mask with bit `i` set.
pub open spec fn plus(mask: u32, i: u32) -> u32 {
    mask | (1u32 << i)
}

/// The mask with bit `i` not set.
pub open spec fn minus(mask: u32, i: u32) -> u32 {
    mask & !(1u32 << i)
}

/// Whether bit `i` of a mask is set.
pub fn test(mask: u32, i: u32) -> (r: bool)
    requires
        i < 32,
    ensures
        r == bit(mask, i),
{
    mask & (1u32 << i) != 0
}

/// The mask with bit `i` set.
pub fn with(mask: u32, i: u32) -> (r: u32)
    requires
        i < 32,
    ensures
        r == plus(mask, i),
        forall|j: u32| j < 32 ==> #[trigger] bit(r, j) == (j == i || bit(mask, j)),
{
    proof {
        lemma_with(mask, i);
    }
    mask | (1u32 << i)
}

/// The mask with bit `i` not set.
pub fn without(mask: u32, i: u32) -> (r: u32)
    requires
        i < 32,
    ensures
        r == minus(mask, i),
        forall|j: u32| j < 32 ==> #[trigger] bit(r, j) == (j != i && bit(mask, j)),
{
    proof {
        lemma_without(mask, i);
    }
    mask & !(1u32 << i)
}

pub proof fn lemma_with(mask: u32, i: u32)
    requires
        i < 32,
    ensures
        forall|j: u32| j < 32 ==> #[trigger] bit(mask | (1u32 << i), j) == (j == i || bit(mask, j)),
{
    assert forall|j: u32| j < 32 implies #[trigger] bit(mask | (1u32 << i), j) == (j == i || bit(mask, j)) by {
        assert((mask | (1u32 << i)) & (1u32 << j) != 0 <==> (j == i || mask & (1u32 << j) != 0)) by (bit_vector)
            requires
                i < 32,
                j < 32,
        ;
    }
}

pub proof fn lemma_without(mask: u32, i: u32)
    requires
        i < 32,
    ensures
        forall|j: u32|
            j < 32 ==> #[trigger] bit(mask & !(1u32 << i), j) == (j != i && bit(mask, j)),
{
    assert forall|j: u32| j < 32 implies #[trigger] bit(mask & !(1u32 << i), j) == (j != i && bit(mask, j)) by {
        assert((mask & !(1u32 << i)) & (1u32 << j) != 0 <==> (j != i && mask & (1u32 << j) != 0)) by (bit_vector)
            requires
                i < 32,
                j < 32,
        ;
    }
}

/// The bits of both masks, and the bits of the one that are not in the other.
pub proof fn lemma_and(a: u32, b: u32)
    ensures
        forall|j: u32| j < 32 ==> #[trigger] bit(a & b, j) == (bit(a, j) && bit(b, j)),
        forall|j: u32| j < 32 ==> #[trigger] bit(a & !b, j) == (bit(a, j) && !bit(b, j)),
{
    assert forall|j: u32| j < 32 implies #[trigger] bit(a & b, j) == (bit(a, j) && bit(b, j)) by {
        assert((a & b) & (1u32 << j) != 0 <==> (a & (1u32 << j) != 0 && b & (1u32 << j) != 0)) by (bit_vector)
            requires
                j < 32,
        ;
    }
    assert forall|j: u32| j < 32 implies #[trigger] bit(a & !b, j) == (bit(a, j) && !bit(b, j)) by {
        assert((a & !b) & (1u32 << j) != 0 <==> (a & (1u32 << j) != 0 && b & (1u32 << j) == 0)) by (bit_vector)
            requires
                j < 32,
        ;
    }
}

/// Nothing is set in nought, and everything is in its opposite.
pub proof fn lemma_none_and_all()
    ensures
        forall|j: u32| j < 32 ==> !#[trigger] bit(0, j),
        forall|j: u32| j < 32 ==> #[trigger] bit(0xffff_ffff, j),
{
    assert forall|j: u32| j < 32 implies !#[trigger] bit(0, j) by {
        assert(0u32 & (1u32 << j) == 0) by (bit_vector);
    }
    assert forall|j: u32| j < 32 implies #[trigger] bit(0xffff_ffff, j) by {
        assert(0xffff_ffffu32 & (1u32 << j) != 0) by (bit_vector)
            requires
                j < 32,
        ;
    }
}

/// A mask is its bits: two that agree on all of them are one.
pub proof fn lemma_bits_decide(a: u32, b: u32)
    requires
        forall|j: u32| j < 32 ==> #[trigger] bit(a, j) == bit(b, j),
    ensures
        a == b,
{
    if a != b {
        let d = a ^ b;
        assert(d != 0) by (bit_vector)
            requires
                a != b,
                d == a ^ b,
        ;
        lemma_some_bit(d);
        let j = choose|j: u32| j < 32 && #[trigger] bit(d, j);
        assert(bit(a, j) == bit(b, j));
        assert(false) by (bit_vector)
            requires
                j < 32,
                d == a ^ b,
                d & (1u32 << j) != 0,
                (a & (1u32 << j) != 0) == (b & (1u32 << j) != 0),
        ;
    }
}

/// A number that is not nought has a bit set.
pub proof fn lemma_some_bit(d: u32)
    requires
        d != 0,
    ensures
        exists|j: u32| j < 32 && #[trigger] bit(d, j),
{
    if !exists|j: u32| j < 32 && #[trigger] bit(d, j) {
        lemma_low_bits(d, 32);
        assert(false) by (bit_vector)
            requires
                d != 0,
                d >> 31u32 == 0,
                d & 0x7fff_ffff == 0,
        ;
    }
}

/// With none of the low `n` bits set, what is below bit `n` is nought.
proof fn lemma_low_bits(d: u32, n: u32)
    requires
        n <= 32,
        forall|j: u32| j < n ==> !#[trigger] bit(d, j),
    ensures
        n < 32 ==> d & (sub_one(1u32 << n)) == 0,
        n == 32 ==> d >> 31u32 == 0 && d & 0x7fff_ffff == 0,
    decreases n,
{
    if n == 0 {
        assert(d & (sub_one(1u32 << 0u32)) == 0) by {
            assert(1u32 << 0u32 == 1) by (bit_vector);
            assert(d & 0 == 0) by (bit_vector);
        }
    } else {
        let m = (n - 1) as u32;
        lemma_low_bits(d, m);
        assert(!bit(d, m));
        let low = sub_one(1u32 << m);
        assert(1u32 << m >= 1) by (bit_vector)
            requires
                m < 32,
        ;
        assert(low == (1u32 << m) - 1);
        if n < 32 {
            let high = sub_one(1u32 << n);
            assert(1u32 << n >= 1) by (bit_vector)
                requires
                    n < 32,
            ;
            assert(high == (1u32 << n) - 1);
            assert(d & high == 0) by (bit_vector)
                requires
                    m < 31,
                    n == m + 1,
                    low == (1u32 << m) - 1,
                    high == (1u32 << n) - 1,
                    d & low == 0,
                    d & (1u32 << m) == 0,
            ;
        } else {
            assert(d >> 31u32 == 0 && d & 0x7fff_ffff == 0) by (bit_vector)
                requires
                    m == 31,
                    low == (1u32 << m) - 1,
                    d & low == 0,
                    d & (1u32 << m) == 0,
            ;
        }
    }
}

spec fn sub_one(x: u32) -> u32 {
    (x - 1) as u32
}

/// A bit of a mask is a digit of it in twos.
pub proof fn a_bit_is_a_digit(mask: u32, i: u32)
    requires
        i < 32,
    ensures
        bit(mask, i) <==> (mask >> i) % 2 == 1,
        forall|j: u32| j < 32 ==> #[trigger] bit(plus(mask, i), j) == (j == i || bit(mask, j)),
        forall|j: u32| j < 32 ==> #[trigger] bit(minus(mask, i), j) == (j != i && bit(mask, j)),
{
    assert(mask & (1u32 << i) != 0 <==> (mask >> i) % 2 == 1) by (bit_vector)
        requires
            i < 32,
    ;
    lemma_with(mask, i);
    lemma_without(mask, i);
}

} // verus!
