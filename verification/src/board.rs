//! The position: where the pieces stand, whose turn it is, and the attack
//! tables that move generation consults.

use vstd::prelude::*;
use crate::bits::{
    bit, bitboard_of, lemma_bit_and, lemma_bit_not, lemma_bit_or, lemma_bit_zero,
    lemma_bitboard_of, lemma_bits_equal, pop_lsb, single, square_bit,
};
use crate::leapers::{
    black_pawn_pattern, king_attack_table, king_attacks, king_step, knight_attack_table,
    knight_attacks, knight_step, lemma_pawn_patterns, pawn_attack_table, pawn_attacks, pawn_step,
    white_pawn_pattern, FILE_A, FILE_H,
};
use crate::magic::{BishopTable, RookTable};
use crate::moves::{
    CastlingRights, BISHOP_PIECE_TYPE, KING_PIECE_TYPE, KNIGHT_PIECE_TYPE, PAWN_PIECE_TYPE,
    QUEEN_PIECE_TYPE, ROOK_PIECE_TYPE,
};
use crate::side::Side;
use crate::sliding_attacks::{bishop_attacks, bishop_reaches, rook_attacks, rook_reaches};
use crate::squares::{file_of, on_board, rank_of};

verus! {

/// The board with everything that belongs to a position.
///
/// `arr` holds the kind of piece on each square (0 for none, else 1 to 6 for
/// pawn, knight, bishop, rook, queen, king); `pieces` holds per side the
/// squares that its pieces stand on; the six pairs of bitboards hold the
/// same per kind.
pub struct Board {
    pub pawns: [u64; 2],
    pub knights: [u64; 2],
    pub bishops: [u64; 2],
    pub rooks: [u64; 2],
    pub queens: [u64; 2],
    pub kings: [u64; 2],
    pub pieces: [u64; 2],
    pub arr: [u8; 64],
    pub occupied: u64,
    pub empty: u64,
    pub ep: Option<u8>,
    pub castling: CastlingRights,
    pub side_to_move: Side,
    pub pawn_attack_table: [[u64; 64]; 2],
    pub knight_attack_table: [u64; 64],
    pub king_attack_table: [u64; 64],
    pub rook_table: RookTable,
    pub bishop_table: BishopTable,
}

impl Board {
    /// The squares on which the pieces of `kind` and `side` stand.
    pub open spec fn kind_bb(&self, kind: int, side: Side) -> u64 {
        if kind == PAWN_PIECE_TYPE {
            self.pawns[side.idx()]
        } else if kind == KNIGHT_PIECE_TYPE {
            self.knights[side.idx()]
        } else if kind == BISHOP_PIECE_TYPE {
            self.bishops[side.idx()]
        } else if kind == ROOK_PIECE_TYPE {
            self.rooks[side.idx()]
        } else if kind == QUEEN_PIECE_TYPE {
            self.queens[side.idx()]
        } else if kind == KING_PIECE_TYPE {
            self.kings[side.idx()]
        } else {
            0
        }
    }

    /// The piece that stands on `sq`, if any: its side and its kind.
    pub open spec fn piece_on(&self, sq: int) -> Option<(Side, u8)> {
        if self.arr[sq] == 0 {
            None
        } else if bit(self.pieces[0], sq) {
            Some((Side::WHITE, self.arr[sq]))
        } else {
            Some((Side::BLACK, self.arr[sq]))
        }
    }

    /// On `sq`, the square array and all the bitboards tell the same.
    pub open spec fn square_wf(&self, sq: int) -> bool {
        &&& self.arr[sq] <= 6
        &&& !(bit(self.pieces[0], sq) && bit(self.pieces[1], sq))
        &&& (self.arr[sq] != 0) == (bit(self.pieces[0], sq) || bit(self.pieces[1], sq))
        &&& bit(self.pawns[0], sq) == (self.arr[sq] == PAWN_PIECE_TYPE && bit(self.pieces[0], sq))
        &&& bit(self.pawns[1], sq) == (self.arr[sq] == PAWN_PIECE_TYPE && bit(self.pieces[1], sq))
        &&& bit(self.knights[0], sq) == (self.arr[sq] == KNIGHT_PIECE_TYPE && bit(self.pieces[0], sq))
        &&& bit(self.knights[1], sq) == (self.arr[sq] == KNIGHT_PIECE_TYPE && bit(self.pieces[1], sq))
        &&& bit(self.bishops[0], sq) == (self.arr[sq] == BISHOP_PIECE_TYPE && bit(self.pieces[0], sq))
        &&& bit(self.bishops[1], sq) == (self.arr[sq] == BISHOP_PIECE_TYPE && bit(self.pieces[1], sq))
        &&& bit(self.rooks[0], sq) == (self.arr[sq] == ROOK_PIECE_TYPE && bit(self.pieces[0], sq))
        &&& bit(self.rooks[1], sq) == (self.arr[sq] == ROOK_PIECE_TYPE && bit(self.pieces[1], sq))
        &&& bit(self.queens[0], sq) == (self.arr[sq] == QUEEN_PIECE_TYPE && bit(self.pieces[0], sq))
        &&& bit(self.queens[1], sq) == (self.arr[sq] == QUEEN_PIECE_TYPE && bit(self.pieces[1], sq))
        &&& bit(self.kings[0], sq) == (self.arr[sq] == KING_PIECE_TYPE && bit(self.pieces[0], sq))
        &&& bit(self.kings[1], sq) == (self.arr[sq] == KING_PIECE_TYPE && bit(self.pieces[1], sq))
        &&& bit(self.occupied, sq) == (self.arr[sq] != 0)
        &&& bit(self.empty, sq) == (self.arr[sq] == 0)
    }

    /// The attack tables hold what their builders promise.
    pub open spec fn tables_wf(&self) -> bool {
        &&& forall|s: int|
            0 <= s < 64 ==> #[trigger] self.pawn_attack_table[0][s] == pawn_attacks(Side::WHITE, s)
        &&& forall|s: int|
            0 <= s < 64 ==> #[trigger] self.pawn_attack_table[1][s] == pawn_attacks(Side::BLACK, s)
        &&& forall|s: int| 0 <= s < 64 ==> #[trigger] self.knight_attack_table[s] == knight_attacks(s)
        &&& forall|s: int| 0 <= s < 64 ==> #[trigger] self.king_attack_table[s] == king_attacks(s)
        &&& self.rook_table.wf()
        &&& self.bishop_table.wf()
    }

    /// The position is consistent: on every square the square array, the
    /// aggregates and the bitboards tell the same, no square holds two
    /// pieces, the tables are sound, and the en-passant file is a file.
    pub open spec fn wf(&self) -> bool {
        &&& self.tables_wf()
        &&& forall|sq: int| 0 <= sq < 64 ==> #[trigger] self.square_wf(sq)
        &&& self.ep matches Some(file) ==> file < 8
    }

    /// `after` is `self` with a piece of `kind` and `side` more on `sq`.
    pub open spec fn placed(&self, after: &Board, side: Side, kind: int, sq: int) -> bool {
        &&& forall|k: int, c: Side|
            1 <= k <= 6 ==> #[trigger] after.kind_bb(k, c) == if k == kind && c == side {
                self.kind_bb(k, c) | single(sq)
            } else {
                self.kind_bb(k, c)
            }
        &&& after.pieces[side.idx()] == self.pieces[side.idx()] | single(sq)
        &&& after.pieces[side.opposite().idx()] == self.pieces[side.opposite().idx()]
        &&& after.arr@ == self.arr@.update(sq, kind as u8)
        &&& after.occupied == self.occupied | single(sq)
        &&& after.empty == self.empty & !single(sq)
        &&& self.same_state(after)
    }

    /// `after` is `self` with the piece of `kind` and `side` on `sq` taken away.
    pub open spec fn removed(&self, after: &Board, side: Side, kind: int, sq: int) -> bool {
        &&& forall|k: int, c: Side|
            1 <= k <= 6 ==> #[trigger] after.kind_bb(k, c) == if k == kind && c == side {
                self.kind_bb(k, c) & !single(sq)
            } else {
                self.kind_bb(k, c)
            }
        &&& after.pieces[side.idx()] == self.pieces[side.idx()] & !single(sq)
        &&& after.pieces[side.opposite().idx()] == self.pieces[side.opposite().idx()]
        &&& after.arr@ == self.arr@.update(sq, 0u8)
        &&& after.occupied == self.occupied & !single(sq)
        &&& after.empty == self.empty | single(sq)
        &&& self.same_state(after)
    }

    /// `after` has the en-passant file, the castling rights, the side to
    /// move and the tables of `self`.
    pub open spec fn same_state(&self, after: &Board) -> bool {
        &&& after.ep == self.ep
        &&& after.castling == self.castling
        &&& after.side_to_move == self.side_to_move
        &&& self.same_tables(after)
    }

    /// `after` has the tables of `self`.
    pub open spec fn same_tables(&self, after: &Board) -> bool {
        &&& after.pawn_attack_table == self.pawn_attack_table
        &&& after.knight_attack_table == self.knight_attack_table
        &&& after.king_attack_table == self.king_attack_table
        &&& after.rook_table == self.rook_table
        &&& after.bishop_table == self.bishop_table
    }

    /// In a consistent position each side's aggregate is the union of its
    /// six bitboards, `occupied` is the union of the two aggregates, and
    /// `empty` is the complement of `occupied`.
    pub proof fn lemma_aggregates(&self)
        requires
            self.wf(),
        ensures
            self.pieces[0] == self.pawns[0] | self.knights[0] | self.bishops[0] | self.rooks[0]
                | self.queens[0] | self.kings[0],
            self.pieces[1] == self.pawns[1] | self.knights[1] | self.bishops[1] | self.rooks[1]
                | self.queens[1] | self.kings[1],
            self.pieces[0] & self.pieces[1] == 0,
            self.occupied == self.pieces[0] | self.pieces[1],
            self.empty == !self.occupied,
    {
        let white = self.pawns[0] | self.knights[0] | self.bishops[0] | self.rooks[0]
            | self.queens[0] | self.kings[0];
        let black = self.pawns[1] | self.knights[1] | self.bishops[1] | self.rooks[1]
            | self.queens[1] | self.kings[1];
        lemma_bit_or(self.pawns[0], self.knights[0]);
        lemma_bit_or(self.pawns[0] | self.knights[0], self.bishops[0]);
        lemma_bit_or(self.pawns[0] | self.knights[0] | self.bishops[0], self.rooks[0]);
        lemma_bit_or(
            self.pawns[0] | self.knights[0] | self.bishops[0] | self.rooks[0],
            self.queens[0],
        );
        lemma_bit_or(
            self.pawns[0] | self.knights[0] | self.bishops[0] | self.rooks[0] | self.queens[0],
            self.kings[0],
        );
        lemma_bit_or(self.pawns[1], self.knights[1]);
        lemma_bit_or(self.pawns[1] | self.knights[1], self.bishops[1]);
        lemma_bit_or(self.pawns[1] | self.knights[1] | self.bishops[1], self.rooks[1]);
        lemma_bit_or(
            self.pawns[1] | self.knights[1] | self.bishops[1] | self.rooks[1],
            self.queens[1],
        );
        lemma_bit_or(
            self.pawns[1] | self.knights[1] | self.bishops[1] | self.rooks[1] | self.queens[1],
            self.kings[1],
        );
        lemma_bit_or(self.pieces[0], self.pieces[1]);
        lemma_bit_and(self.pieces[0], self.pieces[1]);
        lemma_bit_not(self.occupied);
        lemma_bit_zero();
        assert(self.pieces[0] == white) by {
            assert forall|x: int| 0 <= x < 64 implies bit(self.pieces[0], x) == bit(white, x) by {
                assert(self.square_wf(x));
            }
            lemma_bits_equal(self.pieces[0], white);
        }
        assert(self.pieces[1] == black) by {
            assert forall|x: int| 0 <= x < 64 implies bit(self.pieces[1], x) == bit(black, x) by {
                assert(self.square_wf(x));
            }
            lemma_bits_equal(self.pieces[1], black);
        }
        assert(self.pieces[0] & self.pieces[1] == 0) by {
            assert forall|x: int| 0 <= x < 64 implies bit(self.pieces[0] & self.pieces[1], x)
                == bit(0, x) by {
                assert(self.square_wf(x));
            }
            lemma_bits_equal(self.pieces[0] & self.pieces[1], 0);
        }
        assert(self.occupied == self.pieces[0] | self.pieces[1]) by {
            assert forall|x: int| 0 <= x < 64 implies bit(self.occupied, x) == bit(
                self.pieces[0] | self.pieces[1],
                x,
            ) by {
                assert(self.square_wf(x));
            }
            lemma_bits_equal(self.occupied, self.pieces[0] | self.pieces[1]);
        }
        assert(self.empty == !self.occupied) by {
            assert forall|x: int| 0 <= x < 64 implies bit(self.empty, x) == bit(
                !self.occupied,
                x,
            ) by {
                assert(self.square_wf(x));
            }
            lemma_bits_equal(self.empty, !self.occupied);
        }
    }

    /// The bitboard of the pieces of `kind` (1 to 6) and `side`.
    pub fn kind_bb_of(&self, kind: u8, side: Side) -> (bb: u64)
        requires
            1 <= kind <= 6,
        ensures
            bb == self.kind_bb(kind as int, side),
    {
        let i = side.index();
        if kind == PAWN_PIECE_TYPE {
            self.pawns[i]
        } else if kind == KNIGHT_PIECE_TYPE {
            self.knights[i]
        } else if kind == BISHOP_PIECE_TYPE {
            self.bishops[i]
        } else if kind == ROOK_PIECE_TYPE {
            self.rooks[i]
        } else if kind == QUEEN_PIECE_TYPE {
            self.queens[i]
        } else {
            self.kings[i]
        }
    }

    fn set_kind_bb(&mut self, kind: u8, side: Side, bb: u64)
        requires
            1 <= kind <= 6,
        ensures
            forall|k: int, c: Side|
                1 <= k <= 6 ==> #[trigger] final(self).kind_bb(k, c) == if k == kind && c == side {
                    bb
                } else {
                    old(self).kind_bb(k, c)
                },
            final(self).pieces == old(self).pieces,
            final(self).arr == old(self).arr,
            final(self).occupied == old(self).occupied,
            final(self).empty == old(self).empty,
            old(self).same_state(final(self)),
    {
        let i = side.index();
        if kind == PAWN_PIECE_TYPE {
            self.pawns[i] = bb;
        } else if kind == KNIGHT_PIECE_TYPE {
            self.knights[i] = bb;
        } else if kind == BISHOP_PIECE_TYPE {
            self.bishops[i] = bb;
        } else if kind == ROOK_PIECE_TYPE {
            self.rooks[i] = bb;
        } else if kind == QUEEN_PIECE_TYPE {
            self.queens[i] = bb;
        } else {
            self.kings[i] = bb;
        }
    }

    /// Puts a piece of `kind` and `side` on the empty square `sq`.
    pub(crate) fn put(&mut self, side: Side, kind: u8, sq: usize)
        requires
            old(self).wf(),
            1 <= kind <= 6,
            sq < 64,
            old(self).arr[sq as int] == 0,
        ensures
            final(self).wf(),
            old(self).placed(final(self), side, kind as int, sq as int),
    {
        let here = square_bit(sq);
        let i = side.index();
        let ghost before = *self;
        let bb = self.kind_bb_of(kind, side);
        self.pieces[i] = self.pieces[i] | here;
        self.arr[sq] = kind;
        self.occupied = self.occupied | here;
        self.empty = self.empty & !here;
        self.set_kind_bb(kind, side, bb | here);
        proof {
            lemma_bit_not(here);
            lemma_bit_or(bb, here);
            lemma_bit_or(before.pieces[i as int], here);
            lemma_bit_or(before.occupied, here);
            lemma_bit_and(before.empty, !here);
            assert forall|x: int| 0 <= x < 64 implies #[trigger] self.square_wf(x) by {
                assert(before.square_wf(x));
                assert(self.kind_bb(1, Side::WHITE) == self.pawns[0]);
                assert(self.kind_bb(2, Side::WHITE) == self.knights[0]);
                assert(self.kind_bb(3, Side::WHITE) == self.bishops[0]);
                assert(self.kind_bb(4, Side::WHITE) == self.rooks[0]);
                assert(self.kind_bb(5, Side::WHITE) == self.queens[0]);
                assert(self.kind_bb(6, Side::WHITE) == self.kings[0]);
                assert(self.kind_bb(1, Side::BLACK) == self.pawns[1]);
                assert(self.kind_bb(2, Side::BLACK) == self.knights[1]);
                assert(self.kind_bb(3, Side::BLACK) == self.bishops[1]);
                assert(self.kind_bb(4, Side::BLACK) == self.rooks[1]);
                assert(self.kind_bb(5, Side::BLACK) == self.queens[1]);
                assert(self.kind_bb(6, Side::BLACK) == self.kings[1]);
            }
        }
    }

    /// Takes the piece of `kind` and `side` off the square `sq`.
    pub(crate) fn lift(&mut self, side: Side, kind: u8, sq: usize)
        requires
            old(self).wf(),
            1 <= kind <= 6,
            sq < 64,
            old(self).arr[sq as int] == kind,
            bit(old(self).pieces[side.idx()], sq as int),
        ensures
            final(self).wf(),
            old(self).removed(final(self), side, kind as int, sq as int),
    {
        let here = square_bit(sq);
        let i = side.index();
        let ghost before = *self;
        let bb = self.kind_bb_of(kind, side);
        self.pieces[i] = self.pieces[i] & !here;
        self.arr[sq] = 0;
        self.occupied = self.occupied & !here;
        self.empty = self.empty | here;
        self.set_kind_bb(kind, side, bb & !here);
        proof {
            lemma_bit_not(here);
            lemma_bit_and(bb, !here);
            lemma_bit_and(before.pieces[i as int], !here);
            lemma_bit_and(before.occupied, !here);
            lemma_bit_or(before.empty, here);
            assert forall|x: int| 0 <= x < 64 implies #[trigger] self.square_wf(x) by {
                assert(before.square_wf(x));
                assert(self.kind_bb(1, Side::WHITE) == self.pawns[0]);
                assert(self.kind_bb(2, Side::WHITE) == self.knights[0]);
                assert(self.kind_bb(3, Side::WHITE) == self.bishops[0]);
                assert(self.kind_bb(4, Side::WHITE) == self.rooks[0]);
                assert(self.kind_bb(5, Side::WHITE) == self.queens[0]);
                assert(self.kind_bb(6, Side::WHITE) == self.kings[0]);
                assert(self.kind_bb(1, Side::BLACK) == self.pawns[1]);
                assert(self.kind_bb(2, Side::BLACK) == self.knights[1]);
                assert(self.kind_bb(3, Side::BLACK) == self.bishops[1]);
                assert(self.kind_bb(4, Side::BLACK) == self.rooks[1]);
                assert(self.kind_bb(5, Side::BLACK) == self.queens[1]);
                assert(self.kind_bb(6, Side::BLACK) == self.kings[1]);
            }
        }
    }

    /// Placing a piece changes what stands on its square and nothing else.
    pub proof fn lemma_placed(&self, after: &Board, side: Side, kind: int, sq: int)
        requires
            self.wf(),
            0 <= sq < 64,
            1 <= kind <= 6,
            self.arr[sq] == 0,
            self.placed(after, side, kind, sq),
        ensures
            forall|x: int|
                0 <= x < 64 ==> #[trigger] after.piece_on(x) == if x == sq {
                    Some((side, kind as u8))
                } else {
                    self.piece_on(x)
                },
    {
        lemma_bit_or(self.pieces[side.idx()], single(sq));
        crate::bits::lemma_bit_single(sq);
        assert forall|x: int| 0 <= x < 64 implies #[trigger] after.piece_on(x) == if x == sq {
            Some((side, kind as u8))
        } else {
            self.piece_on(x)
        } by {
            assert(self.square_wf(x));
            assert(after.arr[x] == after.arr@[x]);
            assert(self.arr[x] == self.arr@[x]);
        }
    }

    /// Taking a piece away empties its square and changes nothing else.
    pub proof fn lemma_removed(&self, after: &Board, side: Side, kind: int, sq: int)
        requires
            self.wf(),
            0 <= sq < 64,
            self.removed(after, side, kind, sq),
        ensures
            forall|x: int|
                0 <= x < 64 ==> #[trigger] after.piece_on(x) == if x == sq {
                    None
                } else {
                    self.piece_on(x)
                },
    {
        lemma_bit_and(self.pieces[side.idx()], !single(sq));
        lemma_bit_not(single(sq));
        crate::bits::lemma_bit_single(sq);
        assert forall|x: int| 0 <= x < 64 implies #[trigger] after.piece_on(x) == if x == sq {
            None
        } else {
            self.piece_on(x)
        } by {
            assert(self.square_wf(x));
            assert(after.arr[x] == after.arr@[x]);
            assert(self.arr[x] == self.arr@[x]);
        }
    }

    /// The board without pieces: White to move, no en-passant file, no
    /// castling rights.
    pub fn empty(rook_table: RookTable, bishop_table: BishopTable) -> (board: Board)
        requires
            rook_table.wf(),
            bishop_table.wf(),
        ensures
            board.wf(),
            forall|sq: int| 0 <= sq < 64 ==> #[trigger] board.piece_on(sq) is None,
            board.side_to_move == Side::WHITE,
            board.ep is None,
            board.castling == (CastlingRights {
                white_kingside: false,
                white_queenside: false,
                black_kingside: false,
                black_queenside: false,
            }),
            board.rook_table == rook_table,
            board.bishop_table == bishop_table,
    {
        let board = Board {
            pawns: [0u64;2],
            knights: [0u64;2],
            bishops: [0u64;2],
            rooks: [0u64;2],
            queens: [0u64;2],
            kings: [0u64;2],
            pieces: [0u64;2],
            arr: [0u8;64],
            occupied: 0,
            empty: !0u64,
            ep: None,
            castling: CastlingRights {
                white_kingside: false,
                white_queenside: false,
                black_kingside: false,
                black_queenside: false,
            },
            side_to_move: Side::WHITE,
            pawn_attack_table: pawn_attack_table(),
            knight_attack_table: knight_attack_table(),
            king_attack_table: king_attack_table(),
            rook_table,
            bishop_table,
        };
        proof {
            lemma_bit_zero();
            lemma_bit_not(0);
            assert forall|sq: int| 0 <= sq < 64 implies #[trigger] board.square_wf(sq) by {}
        }
        board
    }

    /// Puts a piece of `kind` (1 to 6) and `side` on `square`, if that is an
    /// empty square of the board.
    pub fn place_piece(&mut self, side: Side, kind: u8, square: usize) -> (ok: bool)
        requires
            old(self).wf(),
        ensures
            final(self).wf(),
            ok == (square < 64 && 1 <= kind <= 6 && old(self).arr[square as int] == 0),
            ok ==> old(self).placed(final(self), side, kind as int, square as int),
            !ok ==> *final(self) == *old(self),
    {
        if square < 64 && 1 <= kind && kind <= 6 && self.arr[square] == 0 {
            self.put(side, kind, square);
            true
        } else {
            false
        }
    }

    /// Sets whose turn it is, the en-passant file and the castling rights;
    /// refuses a file that the board does not have.
    pub fn set_state(&mut self, side_to_move: Side, ep: Option<u8>, castling: CastlingRights) -> (ok:
        bool)
        requires
            old(self).wf(),
        ensures
            final(self).wf(),
            ok == (ep matches Some(file) ==> file < 8),
            ok ==> *final(self) == (Board { side_to_move, ep, castling, ..*old(self) }),
            !ok ==> *final(self) == *old(self),
    {
        match ep {
            Some(file) => {
                if file >= 8 {
                    return false;
                }
            },
            None => {},
        }
        self.side_to_move = side_to_move;
        self.ep = ep;
        self.castling = castling;
        proof {
            assert forall|sq: int| 0 <= sq < 64 implies #[trigger] self.square_wf(sq) by {
                assert(old(self).square_wf(sq));
            }
        }
        true
    }
}

/// The kind of piece that starts on `file` of a side's first rank.
pub open spec fn back_rank_kind(file: int) -> u8 {
    if file == 0 || file == 7 {
        ROOK_PIECE_TYPE
    } else if file == 1 || file == 6 {
        KNIGHT_PIECE_TYPE
    } else if file == 2 || file == 5 {
        BISHOP_PIECE_TYPE
    } else if file == 3 {
        QUEEN_PIECE_TYPE
    } else {
        KING_PIECE_TYPE
    }
}

/// What stands on `sq` when a game starts.
pub open spec fn start_piece(sq: int) -> Option<(Side, u8)> {
    if rank_of(sq) == 0 {
        Some((Side::WHITE, back_rank_kind(file_of(sq))))
    } else if rank_of(sq) == 1 {
        Some((Side::WHITE, PAWN_PIECE_TYPE))
    } else if rank_of(sq) == 6 {
        Some((Side::BLACK, PAWN_PIECE_TYPE))
    } else if rank_of(sq) == 7 {
        Some((Side::BLACK, back_rank_kind(file_of(sq))))
    } else {
        None
    }
}

fn back_rank(file: usize) -> (kind: u8)
    requires
        file < 8,
    ensures
        kind == back_rank_kind(file as int),
        1 <= kind <= 6,
{
    if file == 0 || file == 7 {
        ROOK_PIECE_TYPE
    } else if file == 1 || file == 6 {
        KNIGHT_PIECE_TYPE
    } else if file == 2 || file == 5 {
        BISHOP_PIECE_TYPE
    } else if file == 3 {
        QUEEN_PIECE_TYPE
    } else {
        KING_PIECE_TYPE
    }
}

impl Board {
    /// The position in which a game starts: White to move, every castling
    /// still allowed, no en-passant file.
    pub fn new(rook_table: RookTable, bishop_table: BishopTable) -> (board: Board)
        requires
            rook_table.wf(),
            bishop_table.wf(),
        ensures
            board.wf(),
            forall|sq: int| 0 <= sq < 64 ==> #[trigger] board.piece_on(sq) == start_piece(sq),
            board.side_to_move == Side::WHITE,
            board.ep is None,
            board.castling == (CastlingRights {
                white_kingside: true,
                white_queenside: true,
                black_kingside: true,
                black_queenside: true,
            }),
            board.rook_table == rook_table,
            board.bishop_table == bishop_table,
    {
        let mut board = Board::empty(rook_table, bishop_table);
        let mut file: usize = 0;
        while file < 8
            invariant
                file <= 8,
                board.wf(),
                forall|sq: int|
                    0 <= sq < 64 ==> #[trigger] board.piece_on(sq) == if file_of(sq) < file {
                        start_piece(sq)
                    } else {
                        None
                    },
                board.side_to_move == Side::WHITE,
                board.ep is None,
                board.rook_table == rook_table,
                board.bishop_table == bishop_table,
            decreases 8 - file,
        {
            let kind = back_rank(file);
            let ghost b0 = board;
            assert(board.piece_on(file as int) is None);
            board.put(Side::WHITE, kind, file);
            let ghost b1 = board;
            proof {
                b0.lemma_placed(&b1, Side::WHITE, kind as int, file as int);
                assert(board.piece_on(8 + file) is None);
            }
            board.put(Side::WHITE, PAWN_PIECE_TYPE, 8 + file);
            let ghost b2 = board;
            proof {
                b1.lemma_placed(&b2, Side::WHITE, 1, 8 + file);
                assert(board.piece_on(48 + file) is None);
            }
            board.put(Side::BLACK, PAWN_PIECE_TYPE, 48 + file);
            let ghost b3 = board;
            proof {
                b2.lemma_placed(&b3, Side::BLACK, 1, 48 + file);
                assert(board.piece_on(56 + file) is None);
            }
            board.put(Side::BLACK, kind, 56 + file);
            proof {
                b3.lemma_placed(&board, Side::BLACK, kind as int, 56 + file);
            }
            file = file + 1;
        }
        let ghost placed = board;
        board.castling = CastlingRights {
            white_kingside: true,
            white_queenside: true,
            black_kingside: true,
            black_queenside: true,
        };
        proof {
            assert forall|sq: int| 0 <= sq < 64 implies #[trigger] board.square_wf(sq) by {
                assert(placed.square_wf(sq));
            }
            assert forall|sq: int| 0 <= sq < 64 implies #[trigger] board.piece_on(sq)
                == start_piece(sq) by {
                assert(placed.piece_on(sq) == start_piece(sq));
            }
        }
        board
    }
}

impl Board {
    /// A consistent position is determined by what stands on each square,
    /// the state beside the board and the tables: two that agree in these
    /// agree in every bit.
    pub proof fn lemma_determined(&self, other: &Board)
        requires
            self.wf(),
            other.wf(),
            forall|x: int| 0 <= x < 64 ==> #[trigger] self.piece_on(x) == other.piece_on(x),
            self.same_state(other),
        ensures
            *self == *other,
    {
        assert forall|x: int| 0 <= x < 64 implies self.arr[x] == other.arr[x] by {
            assert(self.square_wf(x));
            assert(other.square_wf(x));
            assert(self.piece_on(x) == other.piece_on(x));
        }
        assert(self.pieces[0] == other.pieces[0]) by {
            assert forall|x: int| 0 <= x < 64 implies bit(self.pieces[0], x) == bit(other.pieces[0], x) by {
                assert(self.square_wf(x));
                assert(other.square_wf(x));
                assert(self.piece_on(x) == other.piece_on(x));
            }
            lemma_bits_equal(self.pieces[0], other.pieces[0]);
        }
        assert(self.pieces[1] == other.pieces[1]) by {
            assert forall|x: int| 0 <= x < 64 implies bit(self.pieces[1], x) == bit(other.pieces[1], x) by {
                assert(self.square_wf(x));
                assert(other.square_wf(x));
                assert(self.piece_on(x) == other.piece_on(x));
            }
            lemma_bits_equal(self.pieces[1], other.pieces[1]);
        }
        assert(self.pawns[0] == other.pawns[0]) by {
            assert forall|x: int| 0 <= x < 64 implies bit(self.pawns[0], x) == bit(other.pawns[0], x) by {
                assert(self.square_wf(x));
                assert(other.square_wf(x));
                assert(self.piece_on(x) == other.piece_on(x));
            }
            lemma_bits_equal(self.pawns[0], other.pawns[0]);
        }
        assert(self.pawns[1] == other.pawns[1]) by {
            assert forall|x: int| 0 <= x < 64 implies bit(self.pawns[1], x) == bit(other.pawns[1], x) by {
                assert(self.square_wf(x));
                assert(other.square_wf(x));
                assert(self.piece_on(x) == other.piece_on(x));
            }
            lemma_bits_equal(self.pawns[1], other.pawns[1]);
        }
        assert(self.knights[0] == other.knights[0]) by {
            assert forall|x: int| 0 <= x < 64 implies bit(self.knights[0], x) == bit(other.knights[0], x) by {
                assert(self.square_wf(x));
                assert(other.square_wf(x));
                assert(self.piece_on(x) == other.piece_on(x));
            }
            lemma_bits_equal(self.knights[0], other.knights[0]);
        }
        assert(self.knights[1] == other.knights[1]) by {
            assert forall|x: int| 0 <= x < 64 implies bit(self.knights[1], x) == bit(other.knights[1], x) by {
                assert(self.square_wf(x));
                assert(other.square_wf(x));
                assert(self.piece_on(x) == other.piece_on(x));
            }
            lemma_bits_equal(self.knights[1], other.knights[1]);
        }
        assert(self.bishops[0] == other.bishops[0]) by {
            assert forall|x: int| 0 <= x < 64 implies bit(self.bishops[0], x) == bit(other.bishops[0], x) by {
                assert(self.square_wf(x));
                assert(other.square_wf(x));
                assert(self.piece_on(x) == other.piece_on(x));
            }
            lemma_bits_equal(self.bishops[0], other.bishops[0]);
        }
        assert(self.bishops[1] == other.bishops[1]) by {
            assert forall|x: int| 0 <= x < 64 implies bit(self.bishops[1], x) == bit(other.bishops[1], x) by {
                assert(self.square_wf(x));
                assert(other.square_wf(x));
                assert(self.piece_on(x) == other.piece_on(x));
            }
            lemma_bits_equal(self.bishops[1], other.bishops[1]);
        }
        assert(self.rooks[0] == other.rooks[0]) by {
            assert forall|x: int| 0 <= x < 64 implies bit(self.rooks[0], x) == bit(other.rooks[0], x) by {
                assert(self.square_wf(x));
                assert(other.square_wf(x));
                assert(self.piece_on(x) == other.piece_on(x));
            }
            lemma_bits_equal(self.rooks[0], other.rooks[0]);
        }
        assert(self.rooks[1] == other.rooks[1]) by {
            assert forall|x: int| 0 <= x < 64 implies bit(self.rooks[1], x) == bit(other.rooks[1], x) by {
                assert(self.square_wf(x));
                assert(other.square_wf(x));
                assert(self.piece_on(x) == other.piece_on(x));
            }
            lemma_bits_equal(self.rooks[1], other.rooks[1]);
        }
        assert(self.queens[0] == other.queens[0]) by {
            assert forall|x: int| 0 <= x < 64 implies bit(self.queens[0], x) == bit(other.queens[0], x) by {
                assert(self.square_wf(x));
                assert(other.square_wf(x));
                assert(self.piece_on(x) == other.piece_on(x));
            }
            lemma_bits_equal(self.queens[0], other.queens[0]);
        }
        assert(self.queens[1] == other.queens[1]) by {
            assert forall|x: int| 0 <= x < 64 implies bit(self.queens[1], x) == bit(other.queens[1], x) by {
                assert(self.square_wf(x));
                assert(other.square_wf(x));
                assert(self.piece_on(x) == other.piece_on(x));
            }
            lemma_bits_equal(self.queens[1], other.queens[1]);
        }
        assert(self.kings[0] == other.kings[0]) by {
            assert forall|x: int| 0 <= x < 64 implies bit(self.kings[0], x) == bit(other.kings[0], x) by {
                assert(self.square_wf(x));
                assert(other.square_wf(x));
                assert(self.piece_on(x) == other.piece_on(x));
            }
            lemma_bits_equal(self.kings[0], other.kings[0]);
        }
        assert(self.kings[1] == other.kings[1]) by {
            assert forall|x: int| 0 <= x < 64 implies bit(self.kings[1], x) == bit(other.kings[1], x) by {
                assert(self.square_wf(x));
                assert(other.square_wf(x));
                assert(self.piece_on(x) == other.piece_on(x));
            }
            lemma_bits_equal(self.kings[1], other.kings[1]);
        }
        assert(self.occupied == other.occupied) by {
            assert forall|x: int| 0 <= x < 64 implies bit(self.occupied, x) == bit(other.occupied, x) by {
                assert(self.square_wf(x));
                assert(other.square_wf(x));
                assert(self.piece_on(x) == other.piece_on(x));
            }
            lemma_bits_equal(self.occupied, other.occupied);
        }
        assert(self.empty == other.empty) by {
            assert forall|x: int| 0 <= x < 64 implies bit(self.empty, x) == bit(other.empty, x) by {
                assert(self.square_wf(x));
                assert(other.square_wf(x));
                assert(self.piece_on(x) == other.piece_on(x));
            }
            lemma_bits_equal(self.empty, other.empty);
        }
        assert(self.arr =~= other.arr);
        assert(self.pieces =~= other.pieces);
        assert(self.pawns =~= other.pawns);
        assert(self.knights =~= other.knights);
        assert(self.bishops =~= other.bishops);
        assert(self.rooks =~= other.rooks);
        assert(self.queens =~= other.queens);
        assert(self.kings =~= other.kings);
    }
}

/// A piece of `kind` and `side` on `s` attacks `t` when `occ` are the
/// occupied squares.
pub open spec fn piece_reaches(kind: int, side: Side, occ: u64, s: int, t: int) -> bool {
    if kind == PAWN_PIECE_TYPE {
        pawn_step(side, s, t)
    } else if kind == KNIGHT_PIECE_TYPE {
        knight_step(s, t)
    } else if kind == BISHOP_PIECE_TYPE {
        bishop_reaches(s, occ, t)
    } else if kind == ROOK_PIECE_TYPE {
        rook_reaches(s, occ, t)
    } else if kind == QUEEN_PIECE_TYPE {
        bishop_reaches(s, occ, t) || rook_reaches(s, occ, t)
    } else if kind == KING_PIECE_TYPE {
        king_step(s, t)
    } else {
        false
    }
}

/// The squares that a piece of `kind` and `side` on `s` attacks.
pub open spec fn piece_attack_set(kind: int, side: Side, occ: u64, s: int) -> u64 {
    bitboard_of(|t: int| piece_reaches(kind, side, occ, s, t))
}

/// `s` is a member of `from` but not of `rest`, and a piece of `kind` there attacks `t`.
pub open spec fn hits(from: u64, rest: u64, kind: int, side: Side, occ: u64, s: int, t: int) -> bool {
    bit(from, s) && !bit(rest, s) && piece_reaches(kind, side, occ, s, t)
}

impl Board {
    /// Some piece of `kind` and `side` attacks `t`.
    pub open spec fn kind_attacked(&self, kind: int, side: Side, t: int) -> bool {
        exists|s: int| #[trigger] hits(self.kind_bb(kind, side), 0, kind, side, self.occupied, s, t)
    }

    /// Some piece of `side` attacks `t`.
    pub open spec fn attacked(&self, side: Side, t: int) -> bool {
        ||| self.kind_attacked(1, side, t)
        ||| self.kind_attacked(2, side, t)
        ||| self.kind_attacked(3, side, t)
        ||| self.kind_attacked(4, side, t)
        ||| self.kind_attacked(5, side, t)
        ||| self.kind_attacked(6, side, t)
    }

    /// The aggregate attack set of `side`: every square that one of its
    /// pieces attacks.
    pub open spec fn attack_set(&self, side: Side) -> u64 {
        bitboard_of(|t: int| self.attacked(side, t))
    }

    /// The attack set of one piece of `kind` and `side` on `square`, by table.
    pub fn piece_attacks(&self, kind: u8, side: Side, square: usize) -> (attacks: u64)
        requires
            self.tables_wf(),
            1 <= kind <= 6,
            square < 64,
        ensures
            attacks == piece_attack_set(kind as int, side, self.occupied, square as int),
    {
        let ghost s = square as int;
        let ghost occ = self.occupied;
        let attacks = if kind == PAWN_PIECE_TYPE {
            self.pawn_attack_table[side.index()][square]
        } else if kind == KNIGHT_PIECE_TYPE {
            self.knight_attack_table[square]
        } else if kind == BISHOP_PIECE_TYPE {
            self.bishop_table.lookup(square, self.occupied)
        } else if kind == ROOK_PIECE_TYPE {
            self.rook_table.lookup(square, self.occupied)
        } else if kind == QUEEN_PIECE_TYPE {
            self.rook_table.lookup(square, self.occupied) | self.bishop_table.lookup(
                square,
                self.occupied,
            )
        } else {
            self.king_attack_table[square]
        };
        proof {
            lemma_bitboard_of(|t: int| piece_reaches(kind as int, side, occ, s, t));
            lemma_bitboard_of(|t: int| pawn_step(side, s, t));
            lemma_bitboard_of(|t: int| knight_step(s, t));
            lemma_bitboard_of(|t: int| king_step(s, t));
            lemma_bitboard_of(|t: int| bishop_reaches(s, occ, t));
            lemma_bitboard_of(|t: int| rook_reaches(s, occ, t));
            lemma_bit_or(rook_attacks(s, occ), bishop_attacks(s, occ));
            assert(self.pawn_attack_table[0][s] == pawn_attacks(Side::WHITE, s));
            assert(self.pawn_attack_table[1][s] == pawn_attacks(Side::BLACK, s));
            assert(self.knight_attack_table[s] == knight_attacks(s));
            assert(self.king_attack_table[s] == king_attacks(s));
            lemma_bits_equal(attacks, piece_attack_set(kind as int, side, occ, s));
        }
        attacks
    }

    /// The union of the attack sets of all pieces of `kind` and `side`.
    pub fn kind_attacks(&self, kind: u8, side: Side) -> (attacks: u64)
        requires
            self.tables_wf(),
            1 <= kind <= 6,
        ensures
            forall|t: int| #[trigger] bit(attacks, t) == (on_board(t) && self.kind_attacked(kind as int, side, t)),
    {
        let ghost from = self.kind_bb(kind as int, side);
        let ghost occ = self.occupied;
        let mut rest = self.kind_bb_of(kind, side);
        let mut attacks: u64 = 0;
        proof {
            lemma_bit_zero();
        }
        while rest != 0
            invariant
                self.tables_wf(),
                1 <= kind <= 6,
                from == self.kind_bb(kind as int, side),
                occ == self.occupied,
                forall|j: int| bit(rest, j) ==> bit(from, j),
                forall|t: int| #[trigger]
                    bit(attacks, t) == (on_board(t) && exists|s: int| #[trigger]
                        hits(from, rest, kind as int, side, occ, s, t)),
            decreases rest,
        {
            let ghost before = rest;
            let ghost so_far = attacks;
            let square = pop_lsb(&mut rest);
            let more = self.piece_attacks(kind, side, square);
            attacks = attacks | more;
            proof {
                lemma_bit_or(so_far, more);
                lemma_bitboard_of(|t: int| piece_reaches(kind as int, side, occ, square as int, t));
                assert forall|t: int| #[trigger]
                    bit(attacks, t) == (on_board(t) && exists|s: int| #[trigger]
                        hits(from, rest, kind as int, side, occ, s, t)) by {
                    if bit(so_far, t) {
                        let s0 = choose|s: int| #[trigger]
                            hits(from, before, kind as int, side, occ, s, t);
                        assert(hits(from, rest, kind as int, side, occ, s0, t));
                    }
                    if bit(more, t) {
                        assert(hits(from, rest, kind as int, side, occ, square as int, t));
                    }
                    if exists|s: int| #[trigger] hits(from, rest, kind as int, side, occ, s, t) {
                        let s1 = choose|s: int| #[trigger]
                            hits(from, rest, kind as int, side, occ, s, t);
                        if s1 != square {
                            assert(hits(from, before, kind as int, side, occ, s1, t));
                        }
                    }
                }
            }
        }
        proof {
            assert forall|t: int| #[trigger]
                bit(attacks, t) == (on_board(t) && self.kind_attacked(kind as int, side, t)) by {
                if exists|s: int| #[trigger] hits(from, rest, kind as int, side, occ, s, t) {
                    let s0 = choose|s: int| #[trigger]
                        hits(from, rest, kind as int, side, occ, s, t);
                    assert(hits(from, 0, kind as int, side, occ, s0, t));
                }
                if self.kind_attacked(kind as int, side, t) {
                    let s1 = choose|s: int| #[trigger]
                        hits(from, 0, kind as int, side, occ, s, t);
                    assert(hits(from, rest, kind as int, side, occ, s1, t));
                }
            }
        }
        attacks
    }

    /// The squares that the white pawns attack.
    pub fn w_pawn_attacks(&self) -> (attacks: u64)
        ensures
            attacks == white_pawn_pattern(self.pawns[0]),
            forall|t: int| #[trigger]
                bit(attacks, t) == (on_board(t) && self.kind_attacked(1, Side::WHITE, t)),
    {
        let pawns = self.pawns[Side::WHITE.index()];
        let attacks = (pawns << 9) & !FILE_A | (pawns << 7) & !FILE_H;
        proof {
            assert forall|t: int| #[trigger]
                bit(attacks, t) == (on_board(t) && self.kind_attacked(1, Side::WHITE, t)) by {
                if on_board(t) {
                    lemma_pawn_patterns(pawns, t);
                    lemma_bit_zero();
                    assert(self.kind_bb(1, Side::WHITE) == pawns);
                    if bit(attacks, t) {
                        let s = choose|s: int|
                            bit(pawns, s) && #[trigger] pawn_step(Side::WHITE, s, t);
                        assert(hits(pawns, 0, 1, Side::WHITE, self.occupied, s, t));
                    }
                    if self.kind_attacked(1, Side::WHITE, t) {
                        let s = choose|s: int| #[trigger]
                            hits(pawns, 0, 1, Side::WHITE, self.occupied, s, t);
                        assert(bit(pawns, s) && pawn_step(Side::WHITE, s, t));
                    }
                }
            }
        }
        attacks
    }

    /// The squares that the black pawns attack.
    pub fn b_pawn_attacks(&self) -> (attacks: u64)
        ensures
            attacks == black_pawn_pattern(self.pawns[1]),
            forall|t: int| #[trigger]
                bit(attacks, t) == (on_board(t) && self.kind_attacked(1, Side::BLACK, t)),
    {
        let pawns = self.pawns[Side::BLACK.index()];
        let attacks = (pawns >> 9) & !FILE_H | (pawns >> 7) & !FILE_A;
        proof {
            assert forall|t: int| #[trigger]
                bit(attacks, t) == (on_board(t) && self.kind_attacked(1, Side::BLACK, t)) by {
                if on_board(t) {
                    lemma_pawn_patterns(pawns, t);
                    lemma_bit_zero();
                    assert(self.kind_bb(1, Side::BLACK) == pawns);
                    if bit(attacks, t) {
                        let s = choose|s: int|
                            bit(pawns, s) && #[trigger] pawn_step(Side::BLACK, s, t);
                        assert(hits(pawns, 0, 1, Side::BLACK, self.occupied, s, t));
                    }
                    if self.kind_attacked(1, Side::BLACK, t) {
                        let s = choose|s: int| #[trigger]
                            hits(pawns, 0, 1, Side::BLACK, self.occupied, s, t);
                        assert(bit(pawns, s) && pawn_step(Side::BLACK, s, t));
                    }
                }
            }
        }
        attacks
    }

    /// The aggregate attack set of `side`.
    pub fn attacks(&self, side: Side) -> (attacks: u64)
        requires
            self.tables_wf(),
        ensures
            attacks == self.attack_set(side),
    {
        let pawn_attacks = match side {
            Side::WHITE => self.w_pawn_attacks(),
            Side::BLACK => self.b_pawn_attacks(),
        };
        let knights = self.kind_attacks(KNIGHT_PIECE_TYPE, side);
        let bishops = self.kind_attacks(BISHOP_PIECE_TYPE, side);
        let rooks = self.kind_attacks(ROOK_PIECE_TYPE, side);
        let queens = self.kind_attacks(QUEEN_PIECE_TYPE, side);
        let kings = self.kind_attacks(KING_PIECE_TYPE, side);
        let attacks = pawn_attacks | knights | bishops | rooks | queens | kings;
        proof {
            lemma_bit_or(pawn_attacks, knights);
            lemma_bit_or(pawn_attacks | knights, bishops);
            lemma_bit_or(pawn_attacks | knights | bishops, rooks);
            lemma_bit_or(pawn_attacks | knights | bishops | rooks, queens);
            lemma_bit_or(pawn_attacks | knights | bishops | rooks | queens, kings);
            lemma_bitboard_of(|t: int| self.attacked(side, t));
            assert forall|t: int| 0 <= t < 64 implies bit(attacks, t) == bit(
                self.attack_set(side),
                t,
            ) by {
                assert(bit(attacks, t) == (bit(pawn_attacks, t) || bit(knights, t) || bit(
                    bishops,
                    t,
                ) || bit(rooks, t) || bit(queens, t) || bit(kings, t)));
            }
            lemma_bits_equal(attacks, self.attack_set(side));
        }
        attacks
    }
}

} // verus!
