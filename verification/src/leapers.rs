//! Attack tables of the pieces that do not slide: pawn, knight and king.

use vstd::prelude::*;
use crate::bits::{bit, bitboard_of, lemma_bitboard_of, lemma_bits_equal, single, square_bit};
use crate::side::Side;
use crate::squares::{dist, file_of, on_board, rank_of};

verus! {

/// The squares of the eighth rank.
pub const RANK8: u64 = 0xFF00_0000_0000_0000;

/// The squares of the seventh rank.
pub const RANK7: u64 = 0x00FF_0000_0000_0000;

/// The squares of the sixth rank.
pub const RANK6: u64 = 0x0000_FF00_0000_0000;

/// The squares of the fifth rank.
pub const RANK5: u64 = 0x0000_00FF_0000_0000;

/// The squares of the fourth rank.
pub const RANK4: u64 = 0x0000_0000_FF00_0000;

/// The squares of the third rank.
pub const RANK3: u64 = 0x0000_0000_00FF_0000;

/// The squares of the second rank.
pub const RANK2: u64 = 0x0000_0000_0000_FF00;

/// The squares of the first rank.
pub const RANK1: u64 = 0x0000_0000_0000_00FF;

/// The squares of the a-file.
pub const FILE_A: u64 = 0x0101_0101_0101_0101;

/// The squares of the b-file.
pub const FILE_B: u64 = 0x0202_0202_0202_0202;

/// The squares of the c-file.
pub const FILE_C: u64 = 0x0404_0404_0404_0404;

/// The squares of the d-file.
pub const FILE_D: u64 = 0x0808_0808_0808_0808;

/// The squares of the e-file.
pub const FILE_E: u64 = 0x1010_1010_1010_1010;

/// The squares of the f-file.
pub const FILE_F: u64 = 0x2020_2020_2020_2020;

/// The squares of the g-file.
pub const FILE_G: u64 = 0x4040_4040_4040_4040;

/// The squares of the h-file.
pub const FILE_H: u64 = 0x8080_8080_8080_8080;

/// A knight on `s` attacks `t`: one step along one axis and two along the other.
pub open spec fn knight_step(s: int, t: int) -> bool {
    let dr = dist(rank_of(s), rank_of(t));
    let df = dist(file_of(s), file_of(t));
    on_board(t) && ((dr == 1 && df == 2) || (dr == 2 && df == 1))
}

/// A king on `s` attacks `t`: a neighbouring square.
pub open spec fn king_step(s: int, t: int) -> bool {
    on_board(t) && s != t && dist(rank_of(s), rank_of(t)) <= 1 && dist(file_of(s), file_of(t)) <= 1
}

/// A pawn of `side` on `s` attacks `t`: one rank ahead, one file aside.
pub open spec fn pawn_step(side: Side, s: int, t: int) -> bool {
    &&& on_board(t)
    &&& dist(file_of(s), file_of(t)) == 1
    &&& match side {
        Side::WHITE => rank_of(t) == rank_of(s) + 1,
        Side::BLACK => rank_of(t) == rank_of(s) - 1,
    }
}

/// The squares that a knight on `s` attacks.
pub open spec fn knight_attacks(s: int) -> u64 {
    bitboard_of(|t: int| knight_step(s, t))
}

/// The squares that a king on `s` attacks.
pub open spec fn king_attacks(s: int) -> u64 {
    bitboard_of(|t: int| king_step(s, t))
}

/// The squares that a pawn of `side` on `s` attacks.
pub open spec fn pawn_attacks(side: Side, s: int) -> u64 {
    bitboard_of(|t: int| pawn_step(side, s, t))
}

/// The squares that white pawns standing on `pawns` attack.
pub open spec fn white_pawn_pattern(pawns: u64) -> u64 {
    (pawns << 9) & !FILE_A | (pawns << 7) & !FILE_H
}

/// The squares that black pawns standing on `pawns` attack.
pub open spec fn black_pawn_pattern(pawns: u64) -> u64 {
    (pawns >> 9) & !FILE_H | (pawns >> 7) & !FILE_A
}

/// The squares that knights standing on `b` attack: eight shifts, each
/// without the files that it would wrap onto.
pub open spec fn knight_pattern(b: u64) -> u64 {
    (b << 17) & !FILE_A | (b << 15) & !FILE_H | (b << 10) & !(FILE_A | FILE_B) | (b << 6) & !(FILE_H
        | FILE_G) | (b >> 6) & !(FILE_A | FILE_B) | (b >> 10) & !(FILE_H | FILE_G) | (b >> 15)
        & !FILE_A | (b >> 17) & !FILE_H
}

/// The squares that kings standing on `b` attack: eight shifts, each
/// without the file that it would wrap onto.
pub open spec fn king_pattern(b: u64) -> u64 {
    (b << 8) | (b >> 8) | (b << 1) & !FILE_A | (b >> 1) & !FILE_H | (b << 9) & !FILE_A | (b << 7)
        & !FILE_H | (b >> 9) & !FILE_H | (b >> 7) & !FILE_A
}

spec fn bv_knight_step(s: u64, t: u64) -> bool {
    let sr = s / 8;
    let sf = s % 8;
    let tr = t / 8;
    let tf = t % 8;
    ((tr == sr + 2 || sr == tr + 2) && (tf == sf + 1 || sf == tf + 1)) || ((tr == sr + 1 || sr
        == tr + 1) && (tf == sf + 2 || sf == tf + 2))
}

spec fn bv_king_step(s: u64, t: u64) -> bool {
    let sr = s / 8;
    let sf = s % 8;
    let tr = t / 8;
    let tf = t % 8;
    s != t && (tr == sr || tr == sr + 1 || sr == tr + 1) && (tf == sf || tf == sf + 1 || sf == tf
        + 1)
}

spec fn bv_white_pawn_step(s: u64, t: u64) -> bool {
    t / 8 == s / 8 + 1 && (t % 8 == s % 8 + 1 || s % 8 == t % 8 + 1)
}

spec fn bv_black_pawn_step(s: u64, t: u64) -> bool {
    s / 8 == t / 8 + 1 && (t % 8 == s % 8 + 1 || s % 8 == t % 8 + 1)
}

proof fn bv_leapers(s: u64, t: u64)
    by (bit_vector)
    requires
        s < 64,
        t < 64,
    ensures
        ((knight_pattern(1u64 << s) >> t) & 1 == 1) == bv_knight_step(s, t),
        ((king_pattern(1u64 << s) >> t) & 1 == 1) == bv_king_step(s, t),
        ((white_pawn_pattern(1u64 << s) >> t) & 1 == 1) == bv_white_pawn_step(s, t),
        ((black_pawn_pattern(1u64 << s) >> t) & 1 == 1) == bv_black_pawn_step(s, t),
{
}

/// The shift patterns of a single square are the leapers' attack sets.
pub proof fn lemma_patterns(s: int)
    requires
        on_board(s),
    ensures
        knight_pattern(single(s)) == knight_attacks(s),
        king_pattern(single(s)) == king_attacks(s),
        white_pawn_pattern(single(s)) == pawn_attacks(Side::WHITE, s),
        black_pawn_pattern(single(s)) == pawn_attacks(Side::BLACK, s),
{
    lemma_bitboard_of(|t: int| knight_step(s, t));
    lemma_bitboard_of(|t: int| king_step(s, t));
    lemma_bitboard_of(|t: int| pawn_step(Side::WHITE, s, t));
    lemma_bitboard_of(|t: int| pawn_step(Side::BLACK, s, t));
    assert forall|t: int| 0 <= t < 64 implies bit(knight_pattern(single(s)), t) == bit(
        knight_attacks(s),
        t,
    ) by {
        bv_leapers(s as u64, t as u64);
        assert(bv_knight_step(s as u64, t as u64) == knight_step(s, t));
    }
    assert forall|t: int| 0 <= t < 64 implies bit(king_pattern(single(s)), t) == bit(
        king_attacks(s),
        t,
    ) by {
        bv_leapers(s as u64, t as u64);
        assert(bv_king_step(s as u64, t as u64) == king_step(s, t));
    }
    assert forall|t: int| 0 <= t < 64 implies bit(white_pawn_pattern(single(s)), t) == bit(
        pawn_attacks(Side::WHITE, s),
        t,
    ) by {
        bv_leapers(s as u64, t as u64);
        assert(bv_white_pawn_step(s as u64, t as u64) == pawn_step(Side::WHITE, s, t));
    }
    assert forall|t: int| 0 <= t < 64 implies bit(black_pawn_pattern(single(s)), t) == bit(
        pawn_attacks(Side::BLACK, s),
        t,
    ) by {
        bv_leapers(s as u64, t as u64);
        assert(bv_black_pawn_step(s as u64, t as u64) == pawn_step(Side::BLACK, s, t));
    }
    lemma_bits_equal(knight_pattern(single(s)), knight_attacks(s));
    lemma_bits_equal(king_pattern(single(s)), king_attacks(s));
    lemma_bits_equal(white_pawn_pattern(single(s)), pawn_attacks(Side::WHITE, s));
    lemma_bits_equal(black_pawn_pattern(single(s)), pawn_attacks(Side::BLACK, s));
}

/// Per side and square, the squares that a pawn standing there attacks.
pub fn pawn_attack_table() -> (arr: [[u64; 64]; 2])
    ensures
        forall|s: int| 0 <= s < 64 ==> #[trigger] arr[0][s] == pawn_attacks(Side::WHITE, s),
        forall|s: int| 0 <= s < 64 ==> #[trigger] arr[1][s] == pawn_attacks(Side::BLACK, s),
{
    let mut white = [0u64;64];
    let mut black = [0u64;64];
    let mut i: usize = 0;
    while i < 64
        invariant
            i <= 64,
            forall|s: int| 0 <= s < i ==> #[trigger] white[s] == pawn_attacks(Side::WHITE, s),
            forall|s: int| 0 <= s < i ==> #[trigger] black[s] == pawn_attacks(Side::BLACK, s),
        decreases 64 - i,
    {
        let bitboard = square_bit(i);
        proof {
            lemma_patterns(i as int);
        }
        white[i] = (bitboard << 9) & !FILE_A | (bitboard << 7) & !FILE_H;
        black[i] = (bitboard >> 9) & !FILE_H | (bitboard >> 7) & !FILE_A;
        i = i + 1;
    }
    [white, black]
}

/// Per square, the squares that a knight standing there attacks.
pub fn knight_attack_table() -> (arr: [u64; 64])
    ensures
        forall|s: int| 0 <= s < 64 ==> #[trigger] arr[s] == knight_attacks(s),
{
    let mut arr = [0u64;64];
    let mut i: usize = 0;
    while i < 64
        invariant
            i <= 64,
            forall|s: int| 0 <= s < i ==> #[trigger] arr[s] == knight_attacks(s),
        decreases 64 - i,
    {
        let bitboard = square_bit(i);
        proof {
            lemma_patterns(i as int);
        }
        arr[i] = (bitboard << 17) & !FILE_A | (bitboard << 15) & !FILE_H | (bitboard << 10) & !(
        FILE_A | FILE_B) | (bitboard << 6) & !(FILE_H | FILE_G) | (bitboard >> 6) & !(FILE_A
            | FILE_B) | (bitboard >> 10) & !(FILE_H | FILE_G) | (bitboard >> 15) & !FILE_A | (
        bitboard >> 17) & !FILE_H;
        i = i + 1;
    }
    arr
}

/// Per square, the squares that a king standing there attacks.
pub fn king_attack_table() -> (arr: [u64; 64])
    ensures
        forall|s: int| 0 <= s < 64 ==> #[trigger] arr[s] == king_attacks(s),
{
    let mut arr = [0u64;64];
    let mut i: usize = 0;
    while i < 64
        invariant
            i <= 64,
            forall|s: int| 0 <= s < i ==> #[trigger] arr[s] == king_attacks(s),
        decreases 64 - i,
    {
        let bitboard = square_bit(i);
        proof {
            lemma_patterns(i as int);
        }
        arr[i] = (bitboard << 8) | (bitboard >> 8) | (bitboard << 1) & !FILE_A | (bitboard >> 1)
            & !FILE_H | (bitboard << 9) & !FILE_A | (bitboard << 7) & !FILE_H | (bitboard >> 9)
            & !FILE_H | (bitboard >> 7) & !FILE_A;
        i = i + 1;
    }
    arr
}

/// The bitboard `b` seen from the other side of the board: turned by half a
/// turn, so that square `i` goes to square `63 - i`.
pub open spec fn rotate180(b: u64) -> u64 {
    bitboard_of(|i: int| bit(b, 63 - i))
}

proof fn lemma_steps_rotate(s: int, t: int)
    requires
        on_board(s),
        on_board(t),
    ensures
        knight_step(63 - s, 63 - t) == knight_step(s, t),
        king_step(63 - s, 63 - t) == king_step(s, t),
        pawn_step(Side::BLACK, 63 - s, 63 - t) == pawn_step(Side::WHITE, s, t),
        pawn_step(Side::WHITE, 63 - s, 63 - t) == pawn_step(Side::BLACK, s, t),
{
    assert(rank_of(63 - s) == 7 - rank_of(s) && file_of(63 - s) == 7 - file_of(s));
    assert(rank_of(63 - t) == 7 - rank_of(t) && file_of(63 - t) == 7 - file_of(t));
}

/// The leapers' attack sets turn with the board: what a knight or a king
/// attacks from `63 - s` is the rotated set of what it attacks from `s`, and
/// what a pawn of one side attacks from `63 - s` is the rotated set of what a
/// pawn of the other side attacks from `s`.
pub proof fn lemma_leaper_symmetry(s: int)
    requires
        on_board(s),
    ensures
        knight_attacks(63 - s) == rotate180(knight_attacks(s)),
        king_attacks(63 - s) == rotate180(king_attacks(s)),
        pawn_attacks(Side::BLACK, 63 - s) == rotate180(pawn_attacks(Side::WHITE, s)),
        pawn_attacks(Side::WHITE, 63 - s) == rotate180(pawn_attacks(Side::BLACK, s)),
{
    assert(knight_attacks(63 - s) == rotate180(knight_attacks(s))) by {
        lemma_bitboard_of(|t: int| knight_step(s, t));
        lemma_bitboard_of(|t: int| knight_step(63 - s, t));
        lemma_bitboard_of(|i: int| bit(knight_attacks(s), 63 - i));
        assert forall|t: int| 0 <= t < 64 implies bit(knight_attacks(63 - s), t) == bit(
            rotate180(knight_attacks(s)),
            t,
        ) by {
            lemma_steps_rotate(s, 63 - t);
        }
        lemma_bits_equal(knight_attacks(63 - s), rotate180(knight_attacks(s)));
    }
    assert(king_attacks(63 - s) == rotate180(king_attacks(s))) by {
        lemma_bitboard_of(|t: int| king_step(s, t));
        lemma_bitboard_of(|t: int| king_step(63 - s, t));
        lemma_bitboard_of(|i: int| bit(king_attacks(s), 63 - i));
        assert forall|t: int| 0 <= t < 64 implies bit(king_attacks(63 - s), t) == bit(
            rotate180(king_attacks(s)),
            t,
        ) by {
            lemma_steps_rotate(s, 63 - t);
        }
        lemma_bits_equal(king_attacks(63 - s), rotate180(king_attacks(s)));
    }
    assert(pawn_attacks(Side::BLACK, 63 - s) == rotate180(pawn_attacks(Side::WHITE, s))) by {
        lemma_bitboard_of(|t: int| pawn_step(Side::WHITE, s, t));
        lemma_bitboard_of(|t: int| pawn_step(Side::BLACK, 63 - s, t));
        lemma_bitboard_of(|i: int| bit(pawn_attacks(Side::WHITE, s), 63 - i));
        assert forall|t: int| 0 <= t < 64 implies bit(pawn_attacks(Side::BLACK, 63 - s), t) == bit(
            rotate180(pawn_attacks(Side::WHITE, s)),
            t,
        ) by {
            lemma_steps_rotate(s, 63 - t);
        }
        lemma_bits_equal(
            pawn_attacks(Side::BLACK, 63 - s),
            rotate180(pawn_attacks(Side::WHITE, s)),
        );
    }
    assert(pawn_attacks(Side::WHITE, 63 - s) == rotate180(pawn_attacks(Side::BLACK, s))) by {
        lemma_bitboard_of(|t: int| pawn_step(Side::BLACK, s, t));
        lemma_bitboard_of(|t: int| pawn_step(Side::WHITE, 63 - s, t));
        lemma_bitboard_of(|i: int| bit(pawn_attacks(Side::BLACK, s), 63 - i));
        assert forall|t: int| 0 <= t < 64 implies bit(pawn_attacks(Side::WHITE, 63 - s), t) == bit(
            rotate180(pawn_attacks(Side::BLACK, s)),
            t,
        ) by {
            lemma_steps_rotate(s, 63 - t);
        }
        lemma_bits_equal(
            pawn_attacks(Side::WHITE, 63 - s),
            rotate180(pawn_attacks(Side::BLACK, s)),
        );
    }
}

proof fn bv_pawn_patterns(p: u64, t: u64)
    by (bit_vector)
    requires
        t < 64,
    ensures
        ((white_pawn_pattern(p) >> t) & 1 == 1) == ((t >= 9 && t % 8 != 0 && (p >> ((t - 9) as u64))
            & 1 == 1) || (t >= 7 && t % 8 != 7 && (p >> ((t - 7) as u64)) & 1 == 1)),
        ((black_pawn_pattern(p) >> t) & 1 == 1) == ((t + 9 < 64 && t % 8 != 7 && (p >> ((t + 9) as u64))
            & 1 == 1) || (t + 7 < 64 && t % 8 != 0 && (p >> ((t + 7) as u64)) & 1 == 1)),
{
}

/// The shift patterns of a set of pawns hold the squares that any of them attacks.
pub proof fn lemma_pawn_patterns(pawns: u64, t: int)
    requires
        on_board(t),
    ensures
        bit(white_pawn_pattern(pawns), t) == (exists|s: int|
            bit(pawns, s) && #[trigger] pawn_step(Side::WHITE, s, t)),
        bit(black_pawn_pattern(pawns), t) == (exists|s: int|
            bit(pawns, s) && #[trigger] pawn_step(Side::BLACK, s, t)),
{
    bv_pawn_patterns(pawns, t as u64);
    if t >= 9 && file_of(t) != 0 && bit(pawns, t - 9) {
        assert(pawn_step(Side::WHITE, t - 9, t));
    }
    if t >= 7 && file_of(t) != 7 && bit(pawns, t - 7) {
        assert(pawn_step(Side::WHITE, t - 7, t));
    }
    if t + 9 < 64 && file_of(t) != 7 && bit(pawns, t + 9) {
        assert(pawn_step(Side::BLACK, t + 9, t));
    }
    if t + 7 < 64 && file_of(t) != 0 && bit(pawns, t + 7) {
        assert(pawn_step(Side::BLACK, t + 7, t));
    }
    if exists|s: int| bit(pawns, s) && #[trigger] pawn_step(Side::WHITE, s, t) {
        let s = choose|s: int| bit(pawns, s) && #[trigger] pawn_step(Side::WHITE, s, t);
        assert(s == t - 9 || s == t - 7);
    }
    if exists|s: int| bit(pawns, s) && #[trigger] pawn_step(Side::BLACK, s, t) {
        let s = choose|s: int| bit(pawns, s) && #[trigger] pawn_step(Side::BLACK, s, t);
        assert(s == t + 9 || s == t + 7);
    }
}

} // verus!
