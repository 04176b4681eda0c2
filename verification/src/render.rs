//! The text of a bitboard: eight ranks of eight cells, the last rank on top.

use vstd::prelude::*;
use crate::bits::{bit, test_bit};

verus! {

/// The text of one cell: a green `1` and a blank for a member, `0` and a
/// blank for any other square.
pub open spec fn cell_text(member: bool) -> Seq<u8> {
    if member {
        seq![0x1bu8, 0x5b, 0x33, 0x32, 0x6d, 0x31, 0x20, 0x1b, 0x5b, 0x30, 0x6d]
    } else {
        seq![0x30u8, 0x20]
    }
}

/// The text of the first `files` cells of `rank`.
pub open spec fn rank_text(b: u64, rank: int, files: int) -> Seq<u8>
    decreases files,
{
    if files <= 0 {
        Seq::empty()
    } else {
        rank_text(b, rank, files - 1) + cell_text(bit(b, rank * 8 + files - 1))
    }
}

/// The text of the top `ranks` ranks, each closed by a line feed.
pub open spec fn ranks_text(b: u64, ranks: int) -> Seq<u8>
    decreases ranks,
{
    if ranks <= 0 {
        Seq::empty()
    } else {
        ranks_text(b, ranks - 1) + rank_text(b, 8 - ranks, 8) + seq![0x0au8]
    }
}

/// The text of the whole board, closed by an empty line.
pub open spec fn bb_text(b: u64) -> Seq<u8> {
    ranks_text(b, 8) + seq![0x0au8]
}

/// The bytes that show `bitboard` on a terminal.
pub fn render_bb(bitboard: u64) -> (text: Vec<u8>)
    ensures
        text@ == bb_text(bitboard),
{
    let mut text: Vec<u8> = Vec::new();
    let mut done: usize = 0;
    while done < 8
        invariant
            done <= 8,
            text@ == ranks_text(bitboard, done as int),
        decreases 8 - done,
    {
        let rank = 7 - done;
        let ghost above = text@;
        let mut file: usize = 0;
        while file < 8
            invariant
                file <= 8,
                rank < 8,
                text@ == above + rank_text(bitboard, rank as int, file as int),
            decreases 8 - file,
        {
            let ghost before = text@;
            if test_bit(bitboard, rank * 8 + file) {
                text.push(0x1b);
                text.push(0x5b);
                text.push(0x33);
                text.push(0x32);
                text.push(0x6d);
                text.push(0x31);
                text.push(0x20);
                text.push(0x1b);
                text.push(0x5b);
                text.push(0x30);
                text.push(0x6d);
            } else {
                text.push(0x30);
                text.push(0x20);
            }
            proof {
                assert(text@ =~= before + cell_text(bit(bitboard, rank * 8 + file)));
                assert(text@ =~= above + rank_text(bitboard, rank as int, file + 1));
            }
            file = file + 1;
        }
        text.push(0x0a);
        proof {
            assert(text@ =~= ranks_text(bitboard, done + 1));
        }
        done = done + 1;
    }
    text.push(0x0a);
    text
}

} // verus!
