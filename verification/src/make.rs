//! Applying a move to the position and taking it back. The record carries
//! what retraction needs, so no history is kept beside the board.

use vstd::prelude::*;
use crate::bits::bit;
use crate::board::Board;
use crate::moves::{
    CastlingRights, Move, MoveView, KING_PIECE_TYPE, KNIGHT_PIECE_TYPE, PAWN_PIECE_TYPE,
    ROOK_PIECE_TYPE,
};
use crate::side::Side;
use crate::squares::{dist, file_of, rank_of};

verus! {

/// The rank on which the pawns of `side` promote.
pub open spec fn last_rank(side: Side) -> int {
    match side {
        Side::WHITE => 7,
        Side::BLACK => 0,
    }
}

/// The kind of piece that stands on the target after the move: the moving
/// piece, or what a pawn that reaches its last rank promotes to.
pub open spec fn landed_kind(side: Side, m: MoveView) -> int {
    if m.moving_piece == PAWN_PIECE_TYPE && rank_of(m.to_square as int) == last_rank(side) {
        KNIGHT_PIECE_TYPE + m.promotion_piece
    } else {
        m.moving_piece as int
    }
}

/// The square of the pawn that an en-passant capture takes: on the rank
/// that the capturing pawn leaves, on the file that it enters.
pub open spec fn ep_victim(m: MoveView) -> int {
    rank_of(m.from_square as int) * 8 + file_of(m.to_square as int)
}

/// The en-passant file after the move: that of a pawn that went two ranks.
pub open spec fn ep_after(m: MoveView) -> Option<u8> {
    if m.moving_piece == PAWN_PIECE_TYPE && dist(
        rank_of(m.from_square as int),
        rank_of(m.to_square as int),
    ) == 2 {
        Some(file_of(m.from_square as int) as u8)
    } else {
        None
    }
}

/// The castling rights after a move of `side`: a king's move ends both of
/// its side, and a move from or to a rook's corner ends that corner's.
pub open spec fn castling_after(rights: CastlingRights, side: Side, m: MoveView) -> CastlingRights {
    let white_king = m.moving_piece == KING_PIECE_TYPE && side == Side::WHITE;
    let black_king = m.moving_piece == KING_PIECE_TYPE && side == Side::BLACK;
    CastlingRights {
        white_kingside: rights.white_kingside && !white_king && m.from_square != 7 && m.to_square
            != 7,
        white_queenside: rights.white_queenside && !white_king && m.from_square != 0 && m.to_square
            != 0,
        black_kingside: rights.black_kingside && !black_king && m.from_square != 63 && m.to_square
            != 63,
        black_queenside: rights.black_queenside && !black_king && m.from_square != 56
            && m.to_square != 56,
    }
}

/// The move castles: a king goes from the e-file two files aside on its rank.
pub open spec fn is_castling(m: MoveView) -> bool {
    &&& m.moving_piece == KING_PIECE_TYPE
    &&& file_of(m.from_square as int) == 4
    &&& rank_of(m.from_square as int) == rank_of(m.to_square as int)
    &&& (file_of(m.to_square as int) == 6 || file_of(m.to_square as int) == 2)
}

/// The corner that the rook leaves when `m` castles.
pub open spec fn rook_from(m: MoveView) -> int {
    rank_of(m.from_square as int) * 8 + if file_of(m.to_square as int) == 6 {
        7int
    } else {
        0int
    }
}

/// The square that the rook goes to when `m` castles: the one that the king
/// crosses.
pub open spec fn rook_to(m: MoveView) -> int {
    rank_of(m.from_square as int) * 8 + if file_of(m.to_square as int) == 6 {
        5int
    } else {
        3int
    }
}

impl Board {
    /// The move `m` fits the position: the side to move has the moving piece
    /// on the square it leaves, the target holds what the record says is
    /// captured (for an en-passant capture the target is empty and the pawn
    /// stands beside it), a king that castles finds its rook in the corner
    /// and the square that it crosses empty, and the record remembers this
    /// position's en-passant file and castling rights.
    pub open spec fn applicable(&self, m: MoveView) -> bool {
        let side = self.side_to_move;
        let from = m.from_square as int;
        let to = m.to_square as int;
        &&& 0 <= from < 64 && 0 <= to < 64 && from != to
        &&& 1 <= m.moving_piece <= 6
        &&& self.piece_on(from) == Some((side, m.moving_piece as u8))
        &&& is_castling(m) ==> {
            &&& m.captured_piece == 0
            &&& self.piece_on(rook_from(m)) == Some((side, ROOK_PIECE_TYPE))
            &&& self.piece_on(rook_to(m)) is None
        }
        &&& if m.is_ep {
            &&& m.moving_piece == PAWN_PIECE_TYPE
            &&& m.captured_piece == PAWN_PIECE_TYPE
            &&& rank_of(from) != rank_of(to)
            &&& file_of(from) != file_of(to)
            &&& self.piece_on(to) is None
            &&& self.piece_on(ep_victim(m)) == Some((side.opposite(), PAWN_PIECE_TYPE))
        } else if m.captured_piece != 0 {
            self.piece_on(to) == Some((side.opposite(), m.captured_piece as u8))
        } else {
            self.piece_on(to) is None
        }
        &&& m.prev_ep() == self.ep
        &&& m.castling == self.castling
    }

    /// `after` is the position that applying `m` to `self` gives.
    pub open spec fn made(&self, after: &Board, m: MoveView) -> bool {
        let side = self.side_to_move;
        &&& forall|x: int|
            0 <= x < 64 ==> #[trigger] after.piece_on(x) == if x == m.to_square {
                Some((side, landed_kind(side, m) as u8))
            } else if x == m.from_square || (m.is_ep && x == ep_victim(m)) {
                None
            } else if is_castling(m) && x == rook_from(m) {
                None
            } else if is_castling(m) && x == rook_to(m) {
                Some((side, ROOK_PIECE_TYPE))
            } else {
                self.piece_on(x)
            }
        &&& after.side_to_move == side.opposite()
        &&& after.ep == ep_after(m)
        &&& after.castling == castling_after(self.castling, side, m)
        &&& self.same_tables(after)
    }

    /// The move `m` can be taken back: the side that is not to move has on
    /// the target what `m` put there, and the squares that retraction fills
    /// are empty.
    pub open spec fn retractable(&self, m: MoveView) -> bool {
        let mover = self.side_to_move.opposite();
        let from = m.from_square as int;
        let to = m.to_square as int;
        &&& 0 <= from < 64 && 0 <= to < 64 && from != to
        &&& 1 <= m.moving_piece <= 6
        &&& m.captured_piece <= 6
        &&& self.piece_on(to) == Some((mover, landed_kind(mover, m) as u8))
        &&& self.piece_on(from) is None
        &&& m.is_ep ==> {
            &&& rank_of(from) != rank_of(to)
            &&& file_of(from) != file_of(to)
            &&& self.piece_on(ep_victim(m)) is None
        }
        &&& is_castling(m) ==> {
            &&& m.captured_piece == 0
            &&& self.piece_on(rook_to(m)) == Some((mover, ROOK_PIECE_TYPE))
            &&& self.piece_on(rook_from(m)) is None
        }
    }

    /// `after` is the position that taking `m` back from `self` gives.
    pub open spec fn unmade(&self, after: &Board, m: MoveView) -> bool {
        let mover = self.side_to_move.opposite();
        &&& forall|x: int|
            0 <= x < 64 ==> #[trigger] after.piece_on(x) == if x == m.from_square {
                Some((mover, m.moving_piece as u8))
            } else if x == m.to_square {
                if !m.is_ep && m.captured_piece != 0 {
                    Some((mover.opposite(), m.captured_piece as u8))
                } else {
                    None
                }
            } else if m.is_ep && x == ep_victim(m) {
                Some((mover.opposite(), PAWN_PIECE_TYPE))
            } else if is_castling(m) && x == rook_from(m) {
                Some((mover, ROOK_PIECE_TYPE))
            } else if is_castling(m) && x == rook_to(m) {
                None
            } else {
                self.piece_on(x)
            }
        &&& after.side_to_move == mover
        &&& after.ep == m.prev_ep()
        &&& after.castling == m.castling
        &&& self.same_tables(after)
    }

    /// On a consistent board a square holds a piece of a side and kind
    /// exactly when the square array and that side's bitboard say so.
    proof fn lemma_piece_on(&self, x: int, side: Side, kind: u8)
        requires
            self.wf(),
            0 <= x < 64,
        ensures
            self.piece_on(x) == Some((side, kind)) <==> kind != 0 && self.arr[x] == kind && bit(
                self.pieces[side.idx()],
                x,
            ),
            self.piece_on(x) is None <==> self.arr[x] == 0,
            self.arr[x] <= 6,
    {
        assert(self.square_wf(x));
    }

    /// Carries the piece of `kind` and `side` from `from` to the empty
    /// square `to`.
    fn carry(&mut self, side: Side, kind: u8, from: usize, to: usize)
        requires
            old(self).wf(),
            from < 64,
            to < 64,
            1 <= kind <= 6,
            old(self).piece_on(from as int) == Some((side, kind)),
            old(self).piece_on(to as int) is None,
        ensures
            final(self).wf(),
            forall|x: int|
                0 <= x < 64 ==> #[trigger] final(self).piece_on(x) == if x == to {
                    Some((side, kind))
                } else if x == from {
                    None
                } else {
                    old(self).piece_on(x)
                },
            old(self).same_state(final(self)),
    {
        let ghost b0 = *self;
        proof {
            b0.lemma_piece_on(from as int, side, kind);
        }
        self.lift(side, kind, from);
        let ghost b1 = *self;
        proof {
            b0.lemma_removed(&b1, side, kind as int, from as int);
            b1.lemma_piece_on(to as int, side, kind);
        }
        self.put(side, kind, to);
        proof {
            b1.lemma_placed(self, side, kind as int, to as int);
        }
    }

    /// The part of applying `mv` that moves the piece and takes what it
    /// captures.
    fn make_on_board_without_rook(&mut self, mv: Move)
        requires
            old(self).wf(),
            old(self).applicable(mv@),
        ensures
            final(self).wf(),
            forall|x: int|
                0 <= x < 64 ==> #[trigger] final(self).piece_on(x) == if x == mv@.to_square {
                    Some((old(self).side_to_move, landed_kind(old(self).side_to_move, mv@) as u8))
                } else if x == mv@.from_square || (mv@.is_ep && x == ep_victim(mv@)) {
                    None
                } else {
                    old(self).piece_on(x)
                },
            old(self).same_state(final(self)),
            mv@.captured_piece <= 6,
    {
        let ghost m = mv@;
        let ghost p0 = *self;
        let from = mv.from_square();
        let to = mv.to_square();
        let kind = mv.moving_piece();
        let captured = mv.captured_piece();
        let side = self.side_to_move;
        let other = core::ops::Not::not(side);
        proof {
            p0.lemma_piece_on(from as int, side, kind);
        }
        self.lift(side, kind, from);
        let ghost p1 = *self;
        proof {
            p0.lemma_removed(&p1, side, kind as int, from as int);
        }
        if mv.is_ep() {
            let victim = (from / 8) * 8 + to % 8;
            proof {
                assert(victim == ep_victim(m));
                assert(p1.piece_on(victim as int) == p0.piece_on(victim as int));
                p1.lemma_piece_on(victim as int, other, 1);
            }
            self.lift(other, PAWN_PIECE_TYPE, victim);
            proof {
                p1.lemma_removed(self, other, 1, victim as int);
            }
        } else if captured != 0 {
            proof {
                assert(p1.piece_on(to as int) == p0.piece_on(to as int));
                p1.lemma_piece_on(to as int, other, captured);
            }
            self.lift(other, captured, to);
            proof {
                p1.lemma_removed(self, other, captured as int, to as int);
            }
        }
        let ghost p2 = *self;
        let promotes = kind == PAWN_PIECE_TYPE && to / 8 == (match side {
            Side::WHITE => 7,
            Side::BLACK => 0,
        });
        let landed = if promotes {
            KNIGHT_PIECE_TYPE + mv.promotion_piece()
        } else {
            kind
        };
        proof {
            assert(p2.piece_on(to as int) is None);
            p2.lemma_piece_on(to as int, side, landed);
        }
        self.put(side, landed, to);
        proof {
            p2.lemma_placed(self, side, landed as int, to as int);
        }
    }

    /// Applies `mv`: lifts the moving piece and what it captures, puts the
    /// moving piece (or what a pawn promotes to) on the target, brings the
    /// rook round a king that castles, updates the en-passant file and the
    /// castling rights, and passes the turn.
    pub fn make_move(&mut self, mv: Move)
        requires
            old(self).wf(),
            old(self).applicable(mv@),
        ensures
            final(self).wf(),
            old(self).made(final(self), mv@),
            final(self).retractable(mv@),
    {
        let ghost m = mv@;
        let ghost p0 = *self;
        let from = mv.from_square();
        let to = mv.to_square();
        let kind = mv.moving_piece();
        let side = self.side_to_move;
        let other = core::ops::Not::not(side);
        self.make_on_board_without_rook(mv);
        if kind == KING_PIECE_TYPE && from % 8 == 4 && from / 8 == to / 8 && (to % 8 == 6 || to % 8
            == 2) {
            let corner = (from / 8) * 8 + if to % 8 == 6 {
                7
            } else {
                0
            };
            let crossed = (from / 8) * 8 + if to % 8 == 6 {
                5
            } else {
                3
            };
            proof {
                assert(corner == rook_from(m) && crossed == rook_to(m));
            }
            self.carry(side, ROOK_PIECE_TYPE, corner, crossed);
        }
        let ghost p3 = *self;
        let from_rank = from / 8;
        let to_rank = to / 8;
        self.ep = if kind == PAWN_PIECE_TYPE && (to_rank == from_rank + 2 || from_rank == to_rank
            + 2) {
            Some((from % 8) as u8)
        } else {
            None
        };
        let white_king = kind == KING_PIECE_TYPE && side == Side::WHITE;
        let black_king = kind == KING_PIECE_TYPE && side == Side::BLACK;
        self.castling = CastlingRights {
            white_kingside: self.castling.white_kingside && !white_king && from != 7 && to != 7,
            white_queenside: self.castling.white_queenside && !white_king && from != 0 && to != 0,
            black_kingside: self.castling.black_kingside && !black_king && from != 63 && to != 63,
            black_queenside: self.castling.black_queenside && !black_king && from != 56 && to
                != 56,
        };
        self.side_to_move = other;
        proof {
            assert forall|x: int| 0 <= x < 64 implies #[trigger] self.square_wf(x) by {
                assert(p3.square_wf(x));
            }
            assert forall|x: int| 0 <= x < 64 implies #[trigger] self.piece_on(x) == p3.piece_on(
                x,
            ) by {}
            assert(self.piece_on(to as int) == Some((side, landed_kind(side, m) as u8)));
            assert(self.piece_on(from as int) is None);
            if m.is_ep {
                assert(self.piece_on(ep_victim(m)) is None);
            }
            if is_castling(m) {
                assert(self.piece_on(rook_to(m)) == Some((side, ROOK_PIECE_TYPE)));
                assert(self.piece_on(rook_from(m)) is None);
            }
        }
    }

    /// Takes `mv` back: returns the moving piece to the square it left, puts
    /// back what it captured, and restores the en-passant file, the castling
    /// rights and the turn from the record.
    pub fn unmake_move(&mut self, mv: Move)
        requires
            old(self).wf(),
            old(self).retractable(mv@),
        ensures
            final(self).wf(),
            old(self).unmade(final(self), mv@),
    {
        let ghost m = mv@;
        let ghost q0 = *self;
        let from = mv.from_square();
        let to = mv.to_square();
        let kind = mv.moving_piece();
        let captured = mv.captured_piece();
        let other = self.side_to_move;
        let side = core::ops::Not::not(other);
        let promotes = kind == PAWN_PIECE_TYPE && to / 8 == (match side {
            Side::WHITE => 7,
            Side::BLACK => 0,
        });
        let landed = if promotes {
            KNIGHT_PIECE_TYPE + mv.promotion_piece()
        } else {
            kind
        };
        if kind == KING_PIECE_TYPE && from % 8 == 4 && from / 8 == to / 8 && (to % 8 == 6 || to % 8
            == 2) {
            let corner = (from / 8) * 8 + if to % 8 == 6 {
                7
            } else {
                0
            };
            let crossed = (from / 8) * 8 + if to % 8 == 6 {
                5
            } else {
                3
            };
            proof {
                assert(corner == rook_from(m) && crossed == rook_to(m));
                q0.lemma_piece_on(crossed as int, side, 4);
            }
            self.lift(side, ROOK_PIECE_TYPE, crossed);
            let ghost qa = *self;
            proof {
                q0.lemma_removed(&qa, side, 4, crossed as int);
                qa.lemma_piece_on(corner as int, side, 4);
            }
            self.put(side, ROOK_PIECE_TYPE, corner);
            proof {
                qa.lemma_placed(self, side, 4, corner as int);
            }
        }
        let ghost q0b = *self;
        proof {
            assert(q0b.piece_on(to as int) == q0.piece_on(to as int));
            q0b.lemma_piece_on(to as int, side, landed);
        }
        self.lift(side, landed, to);
        let ghost q1 = *self;
        proof {
            q0b.lemma_removed(&q1, side, landed as int, to as int);
            assert(q1.piece_on(from as int) == q0.piece_on(from as int));
            q1.lemma_piece_on(from as int, side, kind);
        }
        self.put(side, kind, from);
        let ghost q2 = *self;
        proof {
            q1.lemma_placed(&q2, side, kind as int, from as int);
        }
        if mv.is_ep() {
            let victim = (from / 8) * 8 + to % 8;
            proof {
                assert(victim == ep_victim(m));
                q2.lemma_piece_on(victim as int, other, 1);
            }
            self.put(other, PAWN_PIECE_TYPE, victim);
            proof {
                q2.lemma_placed(self, other, 1, victim as int);
            }
        } else if captured != 0 {
            proof {
                q2.lemma_piece_on(to as int, other, captured);
            }
            self.put(other, captured, to);
            proof {
                q2.lemma_placed(self, other, captured as int, to as int);
            }
        }
        let ghost q3 = *self;
        self.ep = if mv.is_prev_ep() {
            Some(mv.prev_ep_file())
        } else {
            None
        };
        self.castling = mv.castling_rights();
        self.side_to_move = side;
        proof {
            assert forall|x: int| 0 <= x < 64 implies #[trigger] self.square_wf(x) by {
                assert(q3.square_wf(x));
            }
            assert forall|x: int| 0 <= x < 64 implies #[trigger] self.piece_on(x) == q3.piece_on(
                x,
            ) by {}
        }
    }

    /// Applying a move that fits and taking it back gives the position from
    /// which one started, in every bit.
    pub proof fn lemma_make_unmake(&self, made: &Board, back: &Board, m: MoveView)
        requires
            self.wf(),
            self.applicable(m),
            made.wf(),
            self.made(made, m),
            back.wf(),
            made.unmade(back, m),
        ensures
            *back == *self,
    {
        assert forall|x: int| 0 <= x < 64 implies #[trigger] back.piece_on(x) == self.piece_on(
            x,
        ) by {
            assert(made.piece_on(x) == made.piece_on(x));
        }
        back.lemma_determined(self);
    }
}

} // verus!
