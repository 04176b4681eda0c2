//! Board geometry: squares are numbered `rank * 8 + file`, both from 0 to 7.

use vstd::prelude::*;

verus! {

/// `sq` is one of the 64 squares.
pub open spec fn on_board(sq: int) -> bool {
    0 <= sq < 64
}

/// The rank of `sq`, from 0 for the first.
pub open spec fn rank_of(sq: int) -> int {
    sq / 8
}

/// The file of `sq`, from 0 for the a-file.
pub open spec fn file_of(sq: int) -> int {
    sq % 8
}

/// The sign of `x`: 1, -1 or 0.
pub open spec fn sgn(x: int) -> int {
    if x > 0 {
        1
    } else if x < 0 {
        -1
    } else {
        0
    }
}

/// How far the coordinates `a` and `b` lie apart.
pub open spec fn dist(a: int, b: int) -> int {
    if a <= b {
        b - a
    } else {
        a - b
    }
}

/// Coordinate `to` lies from `from` on the side that the step `d` points to.
pub open spec fn along(d: int, from: int, to: int) -> bool {
    if d == 0 {
        to == from
    } else if d > 0 {
        to > from
    } else {
        to < from
    }
}

/// The point `(r1, f1)` is reached from `(r0, f0)` by one or more steps of `(dr, df)`.
pub open spec fn steps_to(r0: int, f0: int, r1: int, f1: int, dr: int, df: int) -> bool {
    &&& along(dr, r0, r1)
    &&& along(df, f0, f1)
    &&& (dr != 0 || df != 0)
    &&& (dr != 0 && df != 0 ==> dist(r0, r1) == dist(f0, f1))
}

/// Square `t` is reached from square `s` by one or more steps of `(dr, df)`.
pub open spec fn in_direction(s: int, t: int, dr: int, df: int) -> bool {
    steps_to(rank_of(s), file_of(s), rank_of(t), file_of(t), dr, df)
}

/// Square `m` lies strictly inside the segment from `s` to `t`.
pub open spec fn between(s: int, m: int, t: int) -> bool {
    let dr = sgn(rank_of(t) - rank_of(s));
    let df = sgn(file_of(t) - file_of(s));
    on_board(m) && in_direction(s, m, dr, df) && in_direction(m, t, dr, df)
}

/// `s` and `t` are distinct squares of one rank or one file.
pub open spec fn rook_line(s: int, t: int) -> bool {
    s != t && (rank_of(s) == rank_of(t) || file_of(s) == file_of(t))
}

/// `s` and `t` are distinct squares of one diagonal.
pub open spec fn bishop_line(s: int, t: int) -> bool {
    s != t && dist(rank_of(s), rank_of(t)) == dist(file_of(s), file_of(t))
}

/// No member of `occ` lies strictly inside the segment from `s` to `t`.
pub open spec fn clear_path(s: int, occ: u64, t: int) -> bool {
    forall|m: int| between(s, m, t) ==> !#[trigger] crate::bits::bit(occ, m)
}

} // verus!
