//! Sliding-piece attacks by ray tracing, and the relevant-occupancy masks:
//! the squares whose occupancy can change what a rook or a bishop attacks.

use vstd::prelude::*;
use crate::bits::{
    bit, bitboard_of, lemma_bit_and, lemma_bit_or, lemma_bit_zero, lemma_bitboard_of,
    lemma_bits_equal, lemma_count_by_ranks, lemma_count_member, popcount, rank_members,
    square_bit,
};
use crate::squares::{
    between, bishop_line, clear_path, dist, file_of, in_direction, on_board, rank_of, rook_line,
    steps_to,
};

verus! {

/// Square `t` is hit by the ray that leaves `s` in steps of `(dr, df)` and
/// stops on the first member of `occ`.
pub open spec fn ray_reaches(s: int, dr: int, df: int, occ: u64, t: int) -> bool {
    &&& on_board(t)
    &&& in_direction(s, t, dr, df)
    &&& forall|m: int|
        on_board(m) && in_direction(s, m, dr, df) && in_direction(m, t, dr, df) ==> !#[trigger] bit(
            occ,
            m,
        )
}

/// The squares that the ray from `s` in steps of `(dr, df)` hits.
pub open spec fn ray_attacks(s: int, dr: int, df: int, occ: u64) -> u64 {
    bitboard_of(|t: int| ray_reaches(s, dr, df, occ, t))
}

/// A rook on `s` attacks `t` when the board is occupied by `occ`.
pub open spec fn rook_reaches(s: int, occ: u64, t: int) -> bool {
    on_board(t) && rook_line(s, t) && clear_path(s, occ, t)
}

/// A bishop on `s` attacks `t` when the board is occupied by `occ`.
pub open spec fn bishop_reaches(s: int, occ: u64, t: int) -> bool {
    on_board(t) && bishop_line(s, t) && clear_path(s, occ, t)
}

/// The squares that a rook on `s` attacks: along rank and file in all four
/// directions, up to and including the first occupied square.
pub open spec fn rook_attacks(s: int, occ: u64) -> u64 {
    bitboard_of(|t: int| rook_reaches(s, occ, t))
}

/// The squares that a bishop on `s` attacks: along the diagonals in all four
/// directions, up to and including the first occupied square.
pub open spec fn bishop_attacks(s: int, occ: u64) -> u64 {
    bitboard_of(|t: int| bishop_reaches(s, occ, t))
}

/// Walks from `square` in steps of `(dr, df)` and collects every square up to
/// and including the first blocker, or up to the board's edge.
fn slide_ray(square: usize, blockers: u64, dr: i32, df: i32) -> (attacks: u64)
    requires
        square < 64,
        -1 <= dr <= 1,
        -1 <= df <= 1,
        dr != 0 || df != 0,
    ensures
        attacks == ray_attacks(square as int, dr as int, df as int, blockers),
{
    let ghost s = square as int;
    let mut r: i32 = (square / 8) as i32 + dr;
    let mut f: i32 = (square % 8) as i32 + df;
    let mut attacks: u64 = 0;
    let mut blocked = false;
    proof {
        lemma_bit_zero();
    }
    while !blocked && 0 <= r && r < 8 && 0 <= f && f < 8
        invariant
            s == square as int,
            0 <= s < 64,
            -1 <= dr <= 1,
            -1 <= df <= 1,
            dr != 0 || df != 0,
            -1 <= r <= 8,
            -1 <= f <= 8,
            !blocked ==> steps_to(rank_of(s), file_of(s), r as int, f as int, dr as int, df as int),
            !blocked ==> forall|t: int|
                #[trigger] bit(attacks, t) <==> on_board(t) && in_direction(s, t, dr as int, df as int)
                    && steps_to(rank_of(t), file_of(t), r as int, f as int, dr as int, df as int),
            !blocked ==> forall|m: int|
                on_board(m) && in_direction(s, m, dr as int, df as int) && steps_to(
                    rank_of(m),
                    file_of(m),
                    r as int,
                    f as int,
                    dr as int,
                    df as int,
                ) ==> !#[trigger] bit(blockers, m),
            blocked ==> forall|t: int|
                #[trigger] bit(attacks, t) <==> ray_reaches(s, dr as int, df as int, blockers, t),
        decreases
                (if blocked {
                    0int
                } else {
                    1int
                }),
                8 - dist(rank_of(s), r as int),
                8 - dist(file_of(s), f as int),
    {
        let sq = (r * 8 + f) as usize;
        let here = square_bit(sq);
        let ghost c = sq as int;
        let ghost before = attacks;
        attacks = attacks | here;
        proof {
            lemma_bit_or(before, here);
            assert(rank_of(c) == r && file_of(c) == f);
        }
        if blockers & here != 0 {
            blocked = true;
            proof {
                lemma_bit_and(blockers, here);
                lemma_bit_zero();
                assert(bit(blockers, c)) by {
                    if !bit(blockers, c) {
                        assert forall|i: int| 0 <= i < 64 implies bit(blockers & here, i) == bit(
                            0,
                            i,
                        ) by {}
                        lemma_bits_equal(blockers & here, 0);
                    }
                }
                assert forall|t: int| #[trigger]
                    bit(attacks, t) <==> ray_reaches(s, dr as int, df as int, blockers, t) by {
                    if on_board(t) && in_direction(s, t, dr as int, df as int) {
                        if t == c {
                        } else if steps_to(rank_of(t), file_of(t), r as int, f as int, dr as int, df as int) {
                        } else {
                            assert(in_direction(c, t, dr as int, df as int));
                        }
                    }
                }
            }
        } else {
            proof {
                lemma_bit_and(blockers, here);
                lemma_bit_zero();
                assert(!bit(blockers & here, c));
                assert(!bit(blockers, c));
            }
            r = r + dr;
            f = f + df;
        }
    }
    proof {
        assert forall|t: int| 0 <= t < 64 implies bit(attacks, t) == bit(
            ray_attacks(s, dr as int, df as int, blockers),
            t,
        ) by {
            lemma_bitboard_of(|t: int| ray_reaches(s, dr as int, df as int, blockers, t));
        }
        lemma_bits_equal(attacks, ray_attacks(s, dr as int, df as int, blockers));
    }
    attacks
}

/// The attack set of a rook on `square`, traced ray by ray over `blockers`.
pub fn gen_slide_rook(square: usize, blockers: u64) -> (attacks: u64)
    requires
        square < 64,
    ensures
        attacks == rook_attacks(square as int, blockers),
{
    let up = slide_ray(square, blockers, 1, 0);
    let down = slide_ray(square, blockers, -1, 0);
    let right = slide_ray(square, blockers, 0, 1);
    let left = slide_ray(square, blockers, 0, -1);
    let attacks = up | down | right | left;
    proof {
        let s = square as int;
        lemma_bitboard_of(|t: int| ray_reaches(s, 1, 0, blockers, t));
        lemma_bitboard_of(|t: int| ray_reaches(s, -1, 0, blockers, t));
        lemma_bitboard_of(|t: int| ray_reaches(s, 0, 1, blockers, t));
        lemma_bitboard_of(|t: int| ray_reaches(s, 0, -1, blockers, t));
        lemma_bitboard_of(|t: int| rook_reaches(s, blockers, t));
        lemma_bit_or(up, down);
        lemma_bit_or(up | down, right);
        lemma_bit_or(up | down | right, left);
        assert forall|t: int| 0 <= t < 64 implies bit(attacks, t) == bit(
            rook_attacks(s, blockers),
            t,
        ) by {
            assert(bit(attacks, t) == (bit(up, t) || bit(down, t) || bit(right, t) || bit(left, t)));
        }
        lemma_bits_equal(attacks, rook_attacks(s, blockers));
    }
    attacks
}

/// The attack set of a bishop on `square`, traced ray by ray over `blockers`.
pub fn gen_slide_bishop(square: usize, blockers: u64) -> (attacks: u64)
    requires
        square < 64,
    ensures
        attacks == bishop_attacks(square as int, blockers),
{
    let up_right = slide_ray(square, blockers, 1, 1);
    let up_left = slide_ray(square, blockers, 1, -1);
    let down_right = slide_ray(square, blockers, -1, 1);
    let down_left = slide_ray(square, blockers, -1, -1);
    let attacks = up_right | up_left | down_right | down_left;
    proof {
        let s = square as int;
        lemma_bitboard_of(|t: int| ray_reaches(s, 1, 1, blockers, t));
        lemma_bitboard_of(|t: int| ray_reaches(s, 1, -1, blockers, t));
        lemma_bitboard_of(|t: int| ray_reaches(s, -1, 1, blockers, t));
        lemma_bitboard_of(|t: int| ray_reaches(s, -1, -1, blockers, t));
        lemma_bitboard_of(|t: int| bishop_reaches(s, blockers, t));
        lemma_bit_or(up_right, up_left);
        lemma_bit_or(up_right | up_left, down_right);
        lemma_bit_or(up_right | up_left | down_right, down_left);
        assert forall|t: int| 0 <= t < 64 implies bit(attacks, t) == bit(
            bishop_attacks(s, blockers),
            t,
        ) by {
            assert(bit(attacks, t) == (bit(up_right, t) || bit(up_left, t) || bit(down_right, t)
                || bit(down_left, t)));
        }
        lemma_bits_equal(attacks, bishop_attacks(s, blockers));
    }
    attacks
}

/// Square `m` is neither on the first nor the last rank or file.
pub open spec fn interior(m: int) -> bool {
    1 <= rank_of(m) <= 6 && 1 <= file_of(m) <= 6
}

/// The occupancy of `m` can change what a rook on `s` attacks: `m` shares a
/// line with `s` and is not the last square of that line.
pub open spec fn rook_relevant(s: int, m: int) -> bool {
    &&& on_board(m)
    &&& m != s
    &&& (file_of(m) == file_of(s) && 1 <= rank_of(m) <= 6) || (rank_of(m) == rank_of(s) && 1
        <= file_of(m) <= 6)
}

/// The occupancy of `m` can change what a bishop on `s` attacks.
pub open spec fn bishop_relevant(s: int, m: int) -> bool {
    on_board(m) && bishop_line(s, m) && interior(m)
}

/// The relevant-occupancy mask of a rook on `s`.
pub open spec fn rook_mask(s: int) -> u64 {
    bitboard_of(|m: int| rook_relevant(s, m))
}

/// The relevant-occupancy mask of a bishop on `s`.
pub open spec fn bishop_mask(s: int) -> u64 {
    bitboard_of(|m: int| bishop_relevant(s, m))
}

/// The relevant-occupancy mask of a rook on `square`.
pub fn gen_empty_slide_rook_inner(square: usize) -> (mask: u64)
    requires
        square < 64,
    ensures
        mask == rook_mask(square as int),
{
    let ghost s = square as int;
    let rank = square / 8;
    let file = square % 8;
    let mut mask: u64 = 0;
    let mut r: usize = 1;
    proof {
        lemma_bit_zero();
    }
    while r < 7
        invariant
            1 <= r <= 7,
            s == square as int,
            0 <= s < 64,
            rank == rank_of(s),
            file == file_of(s),
            forall|m: int| #[trigger]
                bit(mask, m) <==> on_board(m) && m != s && file_of(m) == file && 1 <= rank_of(m) < r,
        decreases 7 - r,
    {
        if r != rank {
            let here = square_bit(r * 8 + file);
            proof {
                lemma_bit_or(mask, here);
            }
            mask = mask | here;
        }
        r = r + 1;
    }
    let mut f: usize = 1;
    while f < 7
        invariant
            1 <= f <= 7,
            s == square as int,
            0 <= s < 64,
            rank == rank_of(s),
            file == file_of(s),
            forall|m: int| #[trigger]
                bit(mask, m) <==> on_board(m) && m != s && ((file_of(m) == file && 1 <= rank_of(m)
                    <= 6) || (rank_of(m) == rank && 1 <= file_of(m) < f)),
        decreases 7 - f,
    {
        if f != file {
            let here = square_bit(rank * 8 + f);
            proof {
                lemma_bit_or(mask, here);
            }
            mask = mask | here;
        }
        f = f + 1;
    }
    proof {
        lemma_bitboard_of(|m: int| rook_relevant(s, m));
        lemma_bits_equal(mask, rook_mask(s));
    }
    mask
}

/// The interior squares that lie from `square` in the diagonal direction `(dr, df)`.
fn inner_ray(square: usize, dr: i32, df: i32) -> (mask: u64)
    requires
        square < 64,
        dr == 1 || dr == -1,
        df == 1 || df == -1,
    ensures
        forall|m: int| #[trigger]
            bit(mask, m) <==> on_board(m) && interior(m) && in_direction(
                square as int,
                m,
                dr as int,
                df as int,
            ),
{
    let ghost s = square as int;
    let mut r: i32 = (square / 8) as i32 + dr;
    let mut f: i32 = (square % 8) as i32 + df;
    let mut mask: u64 = 0;
    proof {
        lemma_bit_zero();
    }
    while 1 <= r && r <= 6 && 1 <= f && f <= 6
        invariant
            s == square as int,
            0 <= s < 64,
            dr == 1 || dr == -1,
            df == 1 || df == -1,
            -1 <= r <= 8,
            -1 <= f <= 8,
            steps_to(rank_of(s), file_of(s), r as int, f as int, dr as int, df as int),
            forall|m: int| #[trigger]
                bit(mask, m) <==> on_board(m) && in_direction(s, m, dr as int, df as int)
                    && steps_to(rank_of(m), file_of(m), r as int, f as int, dr as int, df as int),
            forall|m: int|
                on_board(m) && in_direction(s, m, dr as int, df as int) && steps_to(
                    rank_of(m),
                    file_of(m),
                    r as int,
                    f as int,
                    dr as int,
                    df as int,
                ) ==> #[trigger] interior(m),
        decreases 8 - dist(rank_of(s), r as int),
    {
        let sq = (r * 8 + f) as usize;
        let here = square_bit(sq);
        proof {
            lemma_bit_or(mask, here);
            assert(rank_of(sq as int) == r && file_of(sq as int) == f);
        }
        mask = mask | here;
        r = r + dr;
        f = f + df;
    }
    mask
}

/// The relevant-occupancy mask of a bishop on `square`.
pub fn gen_empty_slide_bishop_inner(square: usize) -> (mask: u64)
    requires
        square < 64,
    ensures
        mask == bishop_mask(square as int),
{
    let up_right = inner_ray(square, 1, 1);
    let up_left = inner_ray(square, 1, -1);
    let down_right = inner_ray(square, -1, 1);
    let down_left = inner_ray(square, -1, -1);
    let mask = up_right | up_left | down_right | down_left;
    proof {
        let s = square as int;
        lemma_bit_or(up_right, up_left);
        lemma_bit_or(up_right | up_left, down_right);
        lemma_bit_or(up_right | up_left | down_right, down_left);
        lemma_bitboard_of(|m: int| bishop_relevant(s, m));
        assert forall|m: int| 0 <= m < 64 implies bit(mask, m) == bit(bishop_mask(s), m) by {
            assert(bit(mask, m) == (bit(up_right, m) || bit(up_left, m) || bit(down_right, m)
                || bit(down_left, m)));
        }
        lemma_bits_equal(mask, bishop_mask(s));
    }
    mask
}

/// Blockers outside the relevant-occupancy mask never change a rook's attacks.
pub proof fn lemma_rook_mask_suffices(s: int, occ: u64)
    requires
        on_board(s),
    ensures
        rook_attacks(s, occ & rook_mask(s)) == rook_attacks(s, occ),
{
    let masked = occ & rook_mask(s);
    lemma_bit_and(occ, rook_mask(s));
    lemma_bitboard_of(|m: int| rook_relevant(s, m));
    lemma_bitboard_of(|t: int| rook_reaches(s, occ, t));
    lemma_bitboard_of(|t: int| rook_reaches(s, masked, t));
    assert forall|t: int| 0 <= t < 64 implies bit(rook_attacks(s, masked), t) == bit(
        rook_attacks(s, occ),
        t,
    ) by {
        if rook_line(s, t) {
            assert forall|m: int| between(s, m, t) implies bit(masked, m) == bit(occ, m) by {
                assert(rook_relevant(s, m));
            }
        }
    }
    lemma_bits_equal(rook_attacks(s, masked), rook_attacks(s, occ));
}

/// Blockers outside the relevant-occupancy mask never change a bishop's attacks.
pub proof fn lemma_bishop_mask_suffices(s: int, occ: u64)
    requires
        on_board(s),
    ensures
        bishop_attacks(s, occ & bishop_mask(s)) == bishop_attacks(s, occ),
{
    let masked = occ & bishop_mask(s);
    lemma_bit_and(occ, bishop_mask(s));
    lemma_bitboard_of(|m: int| bishop_relevant(s, m));
    lemma_bitboard_of(|t: int| bishop_reaches(s, occ, t));
    lemma_bitboard_of(|t: int| bishop_reaches(s, masked, t));
    assert forall|t: int| 0 <= t < 64 implies bit(bishop_attacks(s, masked), t) == bit(
        bishop_attacks(s, occ),
        t,
    ) by {
        if bishop_line(s, t) {
            assert forall|m: int| between(s, m, t) implies bit(masked, m) == bit(occ, m) by {
                assert(bishop_relevant(s, m));
            }
        }
    }
    lemma_bits_equal(bishop_attacks(s, masked), bishop_attacks(s, occ));
}

/// How many squares of rank `r` can be relevant to a rook on `s`: six on its
/// own rank, one on the inner ranks of its file.
pub open spec fn rook_rank_bound(s: int, r: int) -> nat {
    if r == rank_of(s) {
        6
    } else if 1 <= r <= 6 {
        1
    } else {
        0
    }
}

proof fn lemma_rook_rank_members(s: int, r: int)
    requires
        on_board(s),
        0 <= r < 8,
    ensures
        rank_members(rook_mask(s), r) <= rook_rank_bound(s, r),
{
    let mask = rook_mask(s);
    let sf = file_of(s);
    reveal(rank_members);
    lemma_bitboard_of(|m: int| rook_relevant(s, m));
    assert forall|f: int| 0 <= f < 8 implies #[trigger] bit(mask, 8 * r + f) == (8 * r + f != s
        && ((f == sf && 1 <= r <= 6) || (r == rank_of(s) && 1 <= f <= 6))) by {
        assert(rank_of(8 * r + f) == r && file_of(8 * r + f) == f);
    }
    assert(bit(mask, 8 * r) == bit(mask, 8 * r + 0));
    if r == rank_of(s) {
        assert(!bit(mask, 8 * r + 0));
        assert(!bit(mask, 8 * r + 7));
    } else {
        assert(s == 8 * rank_of(s) + sf);
    }
}

/// A rook's relevant-occupancy mask has between one and twelve members.
pub proof fn lemma_rook_mask_count(s: int)
    requires
        on_board(s),
    ensures
        1 <= popcount(rook_mask(s)) <= 12,
{
    let mask = rook_mask(s);
    let sr = rank_of(s);
    lemma_count_by_ranks(mask);
    lemma_rook_rank_members(s, 0);
    lemma_rook_rank_members(s, 1);
    lemma_rook_rank_members(s, 2);
    lemma_rook_rank_members(s, 3);
    lemma_rook_rank_members(s, 4);
    lemma_rook_rank_members(s, 5);
    lemma_rook_rank_members(s, 6);
    lemma_rook_rank_members(s, 7);
    let m = (if sr == 1 { 2int } else { 1int }) * 8 + file_of(s);
    assert(bit(mask, m)) by {
        lemma_bitboard_of(|m: int| rook_relevant(s, m));
        assert(rook_relevant(s, m));
    }
    lemma_count_member(mask, m, 64);
}

proof fn lemma_bishop_rank_members(s: int, r: int)
    requires
        on_board(s),
        0 <= r < 8,
    ensures
        rank_members(bishop_mask(s), r) <= if 1 <= r <= 6 { 2nat } else { 0nat },
{
    let mask = bishop_mask(s);
    let sf = file_of(s);
    let d = dist(rank_of(s), r);
    reveal(rank_members);
    lemma_bitboard_of(|m: int| bishop_relevant(s, m));
    assert forall|f: int| 0 <= f < 8 implies #[trigger] bit(mask, 8 * r + f) == (d != 0 && (f == sf
        + d || f == sf - d) && 1 <= r <= 6 && 1 <= f <= 6) by {
        assert(rank_of(8 * r + f) == r && file_of(8 * r + f) == f);
    }
    assert(bit(mask, 8 * r) == bit(mask, 8 * r + 0));
}

/// A bishop's relevant-occupancy mask has between one and twelve members.
pub proof fn lemma_bishop_mask_count(s: int)
    requires
        on_board(s),
    ensures
        1 <= popcount(bishop_mask(s)) <= 12,
{
    let mask = bishop_mask(s);
    let sr = rank_of(s);
    let sf = file_of(s);
    lemma_count_by_ranks(mask);
    lemma_bishop_rank_members(s, 0);
    lemma_bishop_rank_members(s, 1);
    lemma_bishop_rank_members(s, 2);
    lemma_bishop_rank_members(s, 3);
    lemma_bishop_rank_members(s, 4);
    lemma_bishop_rank_members(s, 5);
    lemma_bishop_rank_members(s, 6);
    lemma_bishop_rank_members(s, 7);
    let mr = if sr <= 3 { sr + 1 } else { sr - 1 };
    let mf = if sf <= 3 { sf + 1 } else { sf - 1 };
    let m = mr * 8 + mf;
    assert(bit(mask, m)) by {
        lemma_bitboard_of(|m: int| bishop_relevant(s, m));
        assert(rank_of(m) == mr && file_of(m) == mf);
        assert(bishop_relevant(s, m));
    }
    lemma_count_member(mask, m, 64);
}

/// A rook attacks at least one square, whatever stands on the board.
pub proof fn lemma_rook_attacks_nonempty(s: int, occ: u64)
    requires
        on_board(s),
    ensures
        rook_attacks(s, occ) != 0,
{
    let t = if file_of(s) < 7 { s + 1 } else { s - 1 };
    lemma_bitboard_of(|t: int| rook_reaches(s, occ, t));
    assert(rook_reaches(s, occ, t));
    assert(bit(rook_attacks(s, occ), t));
    lemma_bit_zero();
}

/// A bishop attacks at least one square, whatever stands on the board.
pub proof fn lemma_bishop_attacks_nonempty(s: int, occ: u64)
    requires
        on_board(s),
    ensures
        bishop_attacks(s, occ) != 0,
{
    let tr = if rank_of(s) < 7 { rank_of(s) + 1 } else { rank_of(s) - 1 };
    let tf = if file_of(s) < 7 { file_of(s) + 1 } else { file_of(s) - 1 };
    let t = tr * 8 + tf;
    assert(rank_of(t) == tr && file_of(t) == tf);
    lemma_bitboard_of(|t: int| bishop_reaches(s, occ, t));
    assert(bishop_reaches(s, occ, t));
    assert(bit(bishop_attacks(s, occ), t));
    lemma_bit_zero();
}

} // verus!
