//! The subsets of a mask, enumerated from the mask itself down to the empty
//! set by repeated decrement within the mask.

use vstd::prelude::*;
use vstd::arithmetic::power2::{lemma_pow2_unfold, pow2};
use crate::bits::{
    bit, count_below, lemma_bit_and, lemma_bit_zero, lemma_bits_equal, lemma_lowest_member,
    lemma_next_subset, lemma_subset_basics, popcount, subset,
};

verus! {

/// The number that the members of `x` below `k` spell when only the places
/// of `mask` are read: the place of `x` among the subsets of `mask`.
spec fn packed(x: u64, mask: u64, k: nat) -> nat
    decreases k,
{
    if k == 0 {
        0
    } else {
        packed(x, mask, (k - 1) as nat) + if bit(mask, k - 1) && bit(x, k - 1) {
            pow2(count_below(mask, (k - 1) as nat))
        } else {
            0
        }
    }
}

proof fn bv_decrement(cur: u64, p: u64, i: u64)
    by (bit_vector)
    requires
        p < 64,
        i < 64,
        (cur >> p) & 1 == 1,
        cur & (((1u64 << p) - 1) as u64) == 0,
    ensures
        ((((cur - 1) as u64) >> i) & 1 == 1) == (i < p || (i > p && (cur >> i) & 1 == 1)),
{
}

proof fn bv_low_mask(p: u64, i: u64)
    by (bit_vector)
    requires
        p < 64,
        i < 64,
    ensures
        (((((1u64 << p) - 1) as u64) >> i) & 1 == 1) == (i < p),
{
}

/// The members of the next subset below `cur`: those of `mask` below the
/// lowest member of `cur`, and those of `cur` above it.
proof fn lemma_next_members(cur: u64, mask: u64, p: int)
    requires
        0 <= p < 64,
        bit(cur, p),
        forall|j: int| 0 <= j < p ==> !bit(cur, j),
    ensures
        forall|i: int|
            0 <= i < 64 ==> #[trigger] bit((cur - 1) as u64 & mask, i) == (if i < p {
                bit(mask, i)
            } else {
                i > p && bit(cur, i) && bit(mask, i)
            }),
{
    let low = ((1u64 << (p as u64)) - 1) as u64;
    lemma_bit_and(cur, low);
    lemma_bit_zero();
    assert forall|i: int| 0 <= i < 64 implies bit(cur & low, i) == bit(0, i) by {
        bv_low_mask(p as u64, i as u64);
    }
    lemma_bits_equal(cur & low, 0);
    lemma_bit_and((cur - 1) as u64, mask);
    assert forall|i: int| 0 <= i < 64 implies #[trigger] bit((cur - 1) as u64 & mask, i) == (if i
        < p {
        bit(mask, i)
    } else {
        i > p && bit(cur, i) && bit(mask, i)
    }) by {
        bv_decrement(cur, p as u64, i as u64);
    }
}

proof fn lemma_packed_none(x: u64, mask: u64, k: nat)
    requires
        forall|i: int| 0 <= i < k ==> !bit(x, i),
    ensures
        packed(x, mask, k) == 0,
    decreases k,
{
    if k > 0 {
        lemma_packed_none(x, mask, (k - 1) as nat);
    }
}

proof fn lemma_packed_all(x: u64, mask: u64, k: nat)
    requires
        forall|i: int| 0 <= i < k ==> bit(x, i) == bit(mask, i),
    ensures
        packed(x, mask, k) + 1 == pow2(count_below(mask, k)),
    decreases k,
{
    if k == 0 {
        vstd::arithmetic::power2::lemma2_to64();
    } else {
        lemma_packed_all(x, mask, (k - 1) as nat);
        if bit(mask, k - 1) {
            lemma_pow2_unfold(count_below(mask, k));
        }
    }
}

proof fn lemma_packed_same(x: u64, y: u64, mask: u64, a: nat, k: nat)
    requires
        a <= k,
        forall|i: int| a <= i < k ==> bit(x, i) == bit(y, i),
    ensures
        packed(x, mask, k) - packed(x, mask, a) == packed(y, mask, k) - packed(y, mask, a),
    decreases k,
{
    if a < k {
        lemma_packed_same(x, y, mask, a, (k - 1) as nat);
    }
}

/// The next subset below `cur` has the place before that of `cur`.
proof fn lemma_packed_next(cur: u64, mask: u64, p: int)
    requires
        subset(cur, mask),
        0 <= p < 64,
        bit(cur, p),
        forall|j: int| 0 <= j < p ==> !bit(cur, j),
    ensures
        packed((cur - 1) as u64 & mask, mask, 64) + 1 == packed(cur, mask, 64),
{
    let next = (cur - 1) as u64 & mask;
    lemma_next_members(cur, mask, p);
    lemma_subset_basics(cur, mask);
    lemma_bit_and(cur, mask);
    assert(bit(mask, p));
    lemma_packed_none(cur, mask, p as nat);
    lemma_packed_all(next, mask, p as nat);
    assert(packed(cur, mask, (p + 1) as nat) == pow2(count_below(mask, p as nat)));
    assert(packed(next, mask, (p + 1) as nat) == packed(next, mask, p as nat));
    assert forall|i: int| p + 1 <= i < 64 implies bit(next, i) == bit(cur, i) by {
        assert(bit(cur & mask, i) == bit(cur, i));
    }
    lemma_packed_same(next, cur, mask, (p + 1) as nat, 64);
}

/// All subsets of `mask`, from `mask` itself down to the empty set: two to
/// the number of members of `mask` in all.
pub fn gen_subsets(mask: u64) -> (subsets: Vec<u64>)
    ensures
        subsets@.len() == pow2(popcount(mask)),
        subsets@.len() >= 1,
        subsets@[0] == mask,
        subsets@.last() == 0,
        forall|i: int| 0 <= i < subsets@.len() ==> subset(#[trigger] subsets@[i], mask),
        forall|i: int|
            0 <= i < subsets@.len() - 1 ==> #[trigger] subsets@[i + 1] == (subsets@[i] - 1) as u64
                & mask,
        forall|i: int, j: int| 0 <= i < j < subsets@.len() ==> subsets@[i] > subsets@[j],
        forall|x: u64| subset(x, mask) ==> subsets@.contains(x),
{
    let mut subsets: Vec<u64> = Vec::new();
    let mut current = mask;
    subsets.push(current);
    proof {
        lemma_subset_basics(0, mask);
        assert forall|x: u64| subset(x, mask) && x >= current implies subsets@.contains(x) by {
            lemma_subset_basics(x, mask);
            assert(subsets@[0] == x);
        }
        lemma_packed_all(mask, mask, 64);
    }
    while current != 0
        invariant
            subsets@.len() >= 1,
            subsets@.len() + packed(current, mask, 64) == pow2(popcount(mask)),
            subsets@[0] == mask,
            subsets@.last() == current,
            subset(current, mask),
            forall|i: int| 0 <= i < subsets@.len() ==> subset(#[trigger] subsets@[i], mask),
            forall|i: int|
                0 <= i < subsets@.len() - 1 ==> #[trigger] subsets@[i + 1] == (subsets@[i]
                    - 1) as u64 & mask,
            forall|i: int, j: int| 0 <= i < j < subsets@.len() ==> subsets@[i] > subsets@[j],
            forall|x: u64| subset(x, mask) && x >= current ==> subsets@.contains(x),
        decreases current,
    {
        let ghost seen = subsets@;
        let ghost previous = current;
        proof {
            lemma_next_subset(current, mask);
            let p = lemma_lowest_member(previous);
            lemma_packed_next(previous, mask, p);
        }
        current = (current - 1) & mask;
        subsets.push(current);
        proof {
            assert forall|x: u64| subset(x, mask) && x >= current implies subsets@.contains(
                x,
            ) by {
                if x >= previous {
                    let i = choose|i: int| 0 <= i < seen.len() && seen[i] == x;
                    assert(subsets@[i] == x);
                } else {
                    assert(x == current);
                    assert(subsets@[seen.len() as int] == x);
                }
            }
            assert forall|i: int, j: int| 0 <= i < j < subsets@.len() implies subsets@[i]
                > subsets@[j] by {
                if j == seen.len() {
                    assert(seen[i] >= previous);
                }
            }
        }
    }
    proof {
        lemma_bit_zero();
        lemma_packed_none(0, mask, 64);
    }
    subsets
}

} // verus!
