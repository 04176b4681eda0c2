//! Bitboards as sets of squares: membership, set algebra and counting.

use vstd::prelude::*;

verus! {

/// Square `i` is a member of the set of squares that `b` encodes.
pub open spec fn bit(b: u64, i: int) -> bool {
    0 <= i < 64 && (b >> (i as u64)) & 1 == 1
}

/// Every member of `a` is a member of `b`.
pub open spec fn subset(a: u64, b: u64) -> bool {
    a & !b == 0
}

/// The bitboard whose only member is square `i`.
pub open spec fn single(i: int) -> u64 {
    1u64 << (i as u64)
}

/// The bitboard whose members are the squares below `k` that satisfy `p`.
pub open spec fn bits_below(p: spec_fn(int) -> bool, k: nat) -> u64
    decreases k,
{
    if k == 0 {
        0
    } else {
        let rest = bits_below(p, (k - 1) as nat);
        if p(k - 1) {
            rest | single(k - 1)
        } else {
            rest
        }
    }
}

/// The bitboard whose members are exactly the squares `0..64` that satisfy `p`.
pub open spec fn bitboard_of(p: spec_fn(int) -> bool) -> u64 {
    bits_below(p, 64)
}

/// The number of members of `b` below square `k`.
pub open spec fn count_below(b: u64, k: nat) -> nat
    decreases k,
{
    if k == 0 {
        0
    } else {
        count_below(b, (k - 1) as nat) + if bit(b, k - 1) { 1nat } else { 0nat }
    }
}

/// The number of members of `b`.
pub open spec fn popcount(b: u64) -> nat {
    count_below(b, 64)
}

/// `u64::count_ones` of the standard library returns the number of ones in
/// the binary representation of its argument, which is the number of squares
/// in the set.
pub assume_specification[ u64::count_ones ](i: u64) -> (r: u32)
    ensures
        r == popcount(i),
;

proof fn bv_pointwise(a: u64, b: u64, i: u64)
    by (bit_vector)
    requires
        i < 64,
    ensures
        (((a | b) >> i) & 1 == 1) == (((a >> i) & 1 == 1) || ((b >> i) & 1 == 1)),
        (((a & b) >> i) & 1 == 1) == (((a >> i) & 1 == 1) && ((b >> i) & 1 == 1)),
        (((a ^ b) >> i) & 1 == 1) == (((a >> i) & 1 == 1) != ((b >> i) & 1 == 1)),
        (((!a) >> i) & 1 == 1) == !((a >> i) & 1 == 1),
        ((0u64 >> i) & 1 == 1) == false,
{
}

proof fn bv_single(i: u64, j: u64)
    by (bit_vector)
    requires
        i < 64,
        j < 64,
    ensures
        (((1u64 << i) >> j) & 1 == 1) == (i == j),
{
}

proof fn bv_xor_zero(a: u64, b: u64)
    by (bit_vector)
    ensures
        a ^ b == 0 ==> a == b,
{
}

/// The members of a union are the members of either set.
pub proof fn lemma_bit_or(a: u64, b: u64)
    ensures
        forall|i: int| #[trigger] bit(a | b, i) == (bit(a, i) || bit(b, i)),
{
    assert forall|i: int| #[trigger] bit(a | b, i) == (bit(a, i) || bit(b, i)) by {
        if 0 <= i < 64 {
            bv_pointwise(a, b, i as u64);
        }
    }
}

/// The members of an intersection are the members of both sets.
pub proof fn lemma_bit_and(a: u64, b: u64)
    ensures
        forall|i: int| #[trigger] bit(a & b, i) == (bit(a, i) && bit(b, i)),
{
    assert forall|i: int| #[trigger] bit(a & b, i) == (bit(a, i) && bit(b, i)) by {
        if 0 <= i < 64 {
            bv_pointwise(a, b, i as u64);
        }
    }
}

/// The members of a symmetric difference are the members of one set only.
pub proof fn lemma_bit_xor(a: u64, b: u64)
    ensures
        forall|i: int| #[trigger] bit(a ^ b, i) == (bit(a, i) != bit(b, i)),
{
    assert forall|i: int| #[trigger] bit(a ^ b, i) == (bit(a, i) != bit(b, i)) by {
        if 0 <= i < 64 {
            bv_pointwise(a, b, i as u64);
        }
    }
}

/// The members of a complement are the squares of the board outside the set.
pub proof fn lemma_bit_not(a: u64)
    ensures
        forall|i: int| #[trigger] bit(!a, i) == (0 <= i < 64 && !bit(a, i)),
{
    assert forall|i: int| #[trigger] bit(!a, i) == (0 <= i < 64 && !bit(a, i)) by {
        if 0 <= i < 64 {
            bv_pointwise(a, a, i as u64);
        }
    }
}

/// The empty bitboard has no member.
pub proof fn lemma_bit_zero()
    ensures
        forall|i: int| !#[trigger] bit(0, i),
{
    assert forall|i: int| !#[trigger] bit(0, i) by {
        if 0 <= i < 64 {
            bv_pointwise(0, 0, i as u64);
        }
    }
}

/// The bitboard of one square has that square as its only member.
pub proof fn lemma_bit_single(i: int)
    requires
        0 <= i < 64,
    ensures
        forall|j: int| #[trigger] bit(single(i), j) == (j == i),
{
    assert forall|j: int| #[trigger] bit(single(i), j) == (j == i) by {
        if 0 <= j < 64 {
            bv_single(i as u64, j as u64);
        }
    }
}

/// The bitboard that holds `sq` alone.
pub fn square_bit(sq: usize) -> (b: u64)
    requires
        sq < 64,
    ensures
        b == single(sq as int),
        forall|j: int| #[trigger] bit(b, j) == (j == sq),
{
    proof {
        lemma_bit_single(sq as int);
    }
    1u64 << (sq as u64)
}

/// Two bitboards with the same members are equal.
pub proof fn lemma_bits_equal(a: u64, b: u64)
    requires
        forall|i: int| 0 <= i < 64 ==> bit(a, i) == bit(b, i),
    ensures
        a == b,
{
    let x = a ^ b;
    if x != 0 {
        vstd::std_specs::bits::axiom_u64_trailing_zeros(x);
        let z = x.trailing_zeros() as int;
        assert(bit(x, z));
        lemma_bit_xor(a, b);
        assert(bit(a, z) != bit(b, z));
    }
    bv_xor_zero(a, b);
}

/// The members of `bits_below(p, k)` are the squares below `k` that satisfy `p`.
pub proof fn lemma_bits_below(p: spec_fn(int) -> bool, k: nat)
    requires
        k <= 64,
    ensures
        forall|i: int| #[trigger] bit(bits_below(p, k), i) == (0 <= i < k && p(i)),
    decreases k,
{
    if k == 0 {
        lemma_bit_zero();
    } else {
        let rest = bits_below(p, (k - 1) as nat);
        lemma_bits_below(p, (k - 1) as nat);
        if p(k - 1) {
            lemma_bit_or(rest, single(k - 1));
            lemma_bit_single(k - 1);
        }
    }
}

/// The members of `bitboard_of(p)` are the squares that satisfy `p`.
pub proof fn lemma_bitboard_of(p: spec_fn(int) -> bool)
    ensures
        forall|i: int| #[trigger] bit(bitboard_of(p), i) == (0 <= i < 64 && p(i)),
{
    lemma_bits_below(p, 64);
}

proof fn bv_subset_steps(cur: u64, mask: u64, x: u64)
    by (bit_vector)
    requires
        cur != 0,
        cur & !mask == 0,
    ensures
        ((cur - 1) as u64 & mask) < cur,
        ((cur - 1) as u64 & mask) & !mask == 0,
        x & !mask == 0 && x < cur ==> x <= ((cur - 1) as u64 & mask),
{
}

proof fn bv_subset_basics(a: u64, mask: u64)
    by (bit_vector)
    ensures
        mask & !mask == 0,
        0u64 & !mask == 0,
        (a & mask) & !mask == 0,
        a & !mask == 0 ==> a <= mask,
        a & !mask == 0 ==> a & mask == a,
{
}

/// The empty set, the full set and every intersection with `mask` are subsets of `mask`.
pub proof fn lemma_subset_basics(a: u64, mask: u64)
    ensures
        subset(mask, mask),
        subset(0, mask),
        subset(a & mask, mask),
        subset(a, mask) ==> a <= mask && a & mask == a,
{
    bv_subset_basics(a, mask);
}

/// Among the subsets of `mask`, `(cur - 1) & mask` is the next one below `cur`.
pub proof fn lemma_next_subset(cur: u64, mask: u64)
    requires
        cur != 0,
        subset(cur, mask),
    ensures
        ((cur - 1) as u64 & mask) < cur,
        subset((cur - 1) as u64 & mask, mask),
        forall|x: u64| subset(x, mask) && x < cur ==> x <= ((cur - 1) as u64 & mask),
{
    bv_subset_steps(cur, mask, 0);
    assert forall|x: u64| subset(x, mask) && x < cur implies x <= ((cur - 1) as u64 & mask) by {
        bv_subset_steps(cur, mask, x);
    }
}

/// A set with a member below `k` has at least one member below `k`.
pub proof fn lemma_count_member(b: u64, i: int, k: nat)
    requires
        0 <= i < k,
        bit(b, i),
    ensures
        count_below(b, k) >= 1,
    decreases k,
{
    if i < k - 1 {
        lemma_count_member(b, i, (k - 1) as nat);
    }
}

/// One where `c` holds, else nought.
pub open spec fn one_if(c: bool) -> nat {
    if c {
        1
    } else {
        0
    }
}

/// How many squares of rank `r` are members of `b`.
#[verifier::opaque]
pub open spec fn rank_members(b: u64, r: int) -> nat {
    one_if(bit(b, 8 * r)) + one_if(bit(b, 8 * r + 1)) + one_if(bit(b, 8 * r + 2)) + one_if(
        bit(b, 8 * r + 3),
    ) + one_if(bit(b, 8 * r + 4)) + one_if(bit(b, 8 * r + 5)) + one_if(bit(b, 8 * r + 6)) + one_if(
        bit(b, 8 * r + 7),
    )
}

proof fn lemma_count_rank(b: u64, r: int)
    requires
        0 <= r < 8,
    ensures
        count_below(b, (8 * r + 8) as nat) == count_below(b, (8 * r) as nat) + rank_members(b, r),
{
    let k = 8 * r;
    reveal(rank_members);
    assert(count_below(b, (k + 1) as nat) == count_below(b, k as nat) + one_if(bit(b, k)));
    assert(count_below(b, (k + 2) as nat) == count_below(b, (k + 1) as nat) + one_if(
        bit(b, k + 1),
    ));
    assert(count_below(b, (k + 3) as nat) == count_below(b, (k + 2) as nat) + one_if(
        bit(b, k + 2),
    ));
    assert(count_below(b, (k + 4) as nat) == count_below(b, (k + 3) as nat) + one_if(
        bit(b, k + 3),
    ));
    assert(count_below(b, (k + 5) as nat) == count_below(b, (k + 4) as nat) + one_if(
        bit(b, k + 4),
    ));
    assert(count_below(b, (k + 6) as nat) == count_below(b, (k + 5) as nat) + one_if(
        bit(b, k + 5),
    ));
    assert(count_below(b, (k + 7) as nat) == count_below(b, (k + 6) as nat) + one_if(
        bit(b, k + 6),
    ));
    assert(count_below(b, (k + 8) as nat) == count_below(b, (k + 7) as nat) + one_if(
        bit(b, k + 7),
    ));
}

/// A bitboard has as many members as its eight ranks hold together.
pub proof fn lemma_count_by_ranks(b: u64)
    ensures
        popcount(b) == rank_members(b, 0) + rank_members(b, 1) + rank_members(b, 2)
            + rank_members(b, 3) + rank_members(b, 4) + rank_members(b, 5) + rank_members(b, 6)
            + rank_members(b, 7),
{
    let c0 = count_below(b, 0);
    let c1 = count_below(b, 8);
    let c2 = count_below(b, 16);
    let c3 = count_below(b, 24);
    let c4 = count_below(b, 32);
    let c5 = count_below(b, 40);
    let c6 = count_below(b, 48);
    let c7 = count_below(b, 56);
    let c8 = count_below(b, 64);
    assert(c0 == 0);
    assert(c1 == c0 + rank_members(b, 0)) by {
        lemma_count_rank(b, 0);
    }
    assert(c2 == c1 + rank_members(b, 1)) by {
        lemma_count_rank(b, 1);
    }
    assert(c3 == c2 + rank_members(b, 2)) by {
        lemma_count_rank(b, 2);
    }
    assert(c4 == c3 + rank_members(b, 3)) by {
        lemma_count_rank(b, 3);
    }
    assert(c5 == c4 + rank_members(b, 4)) by {
        lemma_count_rank(b, 4);
    }
    assert(c6 == c5 + rank_members(b, 5)) by {
        lemma_count_rank(b, 5);
    }
    assert(c7 == c6 + rank_members(b, 6)) by {
        lemma_count_rank(b, 6);
    }
    assert(c8 == c7 + rank_members(b, 7)) by {
        lemma_count_rank(b, 7);
    }
}

proof fn bv_clear_member(b: u64, i: u64)
    by (bit_vector)
    requires
        i < 64,
        (b >> i) & 1 == 1,
    ensures
        (b & !(1u64 << i)) < b,
{
}

/// A bitboard that is not empty has a lowest member.
pub proof fn lemma_lowest_member(b: u64) -> (p: int)
    requires
        b != 0,
    ensures
        0 <= p < 64,
        p == b.trailing_zeros(),
        bit(b, p),
        forall|j: int| 0 <= j < p ==> !bit(b, j),
{
    vstd::std_specs::bits::axiom_u64_trailing_zeros(b);
    let p = b.trailing_zeros() as int;
    assert forall|j: int| 0 <= j < p implies !bit(b, j) by {
        let k = j as u64;
        assert((b >> k) & 1u64 == 0u64);
    }
    p
}

/// The lowest member of `b`; 64 when `b` is empty.
pub fn lsb1(b: u64) -> (i: usize)
    ensures
        b == 0 ==> i == 64,
        b != 0 ==> i < 64 && bit(b, i as int),
        forall|j: int| 0 <= j < i ==> !bit(b, j),
{
    proof {
        vstd::std_specs::bits::axiom_u64_trailing_zeros(b);
        if b != 0 {
            lemma_lowest_member(b);
        } else {
            lemma_bit_zero();
        }
    }
    b.trailing_zeros() as usize
}

/// Takes the lowest member out of `b` and returns it.
pub fn pop_lsb(b: &mut u64) -> (i: usize)
    requires
        *old(b) != 0,
    ensures
        i < 64,
        bit(*old(b), i as int),
        forall|j: int| 0 <= j < i ==> !bit(*old(b), j),
        forall|j: int| #[trigger] bit(*final(b), j) == (bit(*old(b), j) && j != i),
        *final(b) < *old(b),
{
    let i = lsb1(*b);
    let here = square_bit(i);
    proof {
        lemma_bit_and(*b, !here);
        lemma_bit_not(here);
        bv_clear_member(*b, i as u64);
    }
    *b = *b & !here;
    i
}

/// Whether `sq` is a member of `b`.
pub fn test_bit(b: u64, sq: usize) -> (member: bool)
    requires
        sq < 64,
    ensures
        member == bit(b, sq as int),
{
    (b >> (sq as u64)) & 1 == 1
}

} // verus!
