//! Move generation: from the position to the list of moves, piece by piece
//! and target by target, lowest square first.

use vstd::prelude::*;
use crate::bits::{
    bit, bitboard_of, lemma_bit_and, lemma_bit_not, lemma_bit_or, lemma_bit_zero,
    lemma_bitboard_of, lemma_bits_equal, pop_lsb, square_bit, test_bit,
};
use crate::board::{piece_attack_set, piece_reaches, Board};
use crate::leapers::{pawn_attacks, pawn_step};
use crate::make::{ep_victim, last_rank};
use crate::moves::{
    extends, lemma_extends_push, lemma_extends_twice, move_list, push_move, Move, MoveView, Moves, BISHOP_PIECE_TYPE,
    KING_PIECE_TYPE, KNIGHT_PIECE_TYPE, MOVES_CAPACITY, PAWN_PIECE_TYPE, QUEEN_PIECE_TYPE,
    ROOK_PIECE_TYPE,
};
use crate::side::Side;
use crate::squares::{file_of, on_board, rank_of};

verus! {

/// The square one rank ahead of `s`, as `side` sees the board.
pub open spec fn forward(side: Side, s: int) -> int {
    match side {
        Side::WHITE => s + 8,
        Side::BLACK => s - 8,
    }
}

/// The rank on which the pawns of `side` start.
pub open spec fn start_rank(side: Side) -> int {
    match side {
        Side::WHITE => 1,
        Side::BLACK => 6,
    }
}

/// The rank on which a pawn of `side` lands when it captures en passant.
pub open spec fn ep_rank(side: Side) -> int {
    match side {
        Side::WHITE => 5,
        Side::BLACK => 2,
    }
}

/// The square on which the king of `side` starts.
pub open spec fn king_home(side: Side) -> int {
    match side {
        Side::WHITE => 4,
        Side::BLACK => 60,
    }
}

impl Board {
    /// A pawn of `side` on `from` may move to `t`: one square ahead if that
    /// is empty, two from its starting rank if both are, aslant onto a piece
    /// of the other side, or aslant onto the empty square behind a pawn that
    /// can be captured en passant.
    pub open spec fn pawn_reaches(&self, side: Side, from: int, t: int) -> bool {
        let other = side.opposite();
        ||| t == forward(side, from) && self.arr[t] == 0
        ||| rank_of(from) == start_rank(side) && t == forward(side, forward(side, from))
            && self.arr[forward(side, from)] == 0 && self.arr[t] == 0
        ||| pawn_step(side, from, t) && bit(self.pieces[other.idx()], t)
        ||| {
            &&& pawn_step(side, from, t)
            &&& self.ep == Some(file_of(t) as u8)
            &&& rank_of(t) == ep_rank(side)
            &&& self.arr[t] == 0
            &&& self.arr[rank_of(from) * 8 + file_of(t)] == PAWN_PIECE_TYPE
            &&& bit(self.pieces[other.idx()], rank_of(from) * 8 + file_of(t))
        }
    }

    /// The squares that a pawn of `side` on `from` may move to.
    pub open spec fn pawn_targets(&self, side: Side, from: int) -> u64 {
        bitboard_of(|t: int| self.pawn_reaches(side, from, t))
    }

    /// The targets of a piece of `kind` and `side` on `from` within
    /// `allowed`: where a pawn may move, what another piece attacks.
    pub open spec fn targets(&self, side: Side, kind: int, from: int, allowed: u64) -> u64 {
        if kind == PAWN_PIECE_TYPE {
            self.pawn_targets(side, from) & allowed
        } else {
            piece_attack_set(kind, side, self.occupied, from) & allowed
        }
    }

    /// The record of the move of a piece of `kind` and `side` from `from` to
    /// `to`: what it captures, what a pawn promotes to, and the state to
    /// restore on retraction. A pawn that goes aslant onto an empty square
    /// captures en passant.
    pub open spec fn record(&self, side: Side, kind: int, from: int, to: int, promotion: int) -> MoveView {
        let en_passant = kind == PAWN_PIECE_TYPE && file_of(from) != file_of(to) && self.arr[to]
            == 0;
        MoveView {
            from_square: from as u32,
            to_square: to as u32,
            moving_piece: kind as u32,
            captured_piece: if en_passant {
                PAWN_PIECE_TYPE as u32
            } else if bit(self.pieces[side.opposite().idx()], to) {
                self.arr[to] as u32
            } else {
                0
            },
            promotion_piece: promotion as u32,
            is_prev_ep: self.ep is Some,
            prev_ep_file: match self.ep {
                Some(file) => file as u32,
                None => 0,
            },
            castling: self.castling,
            is_ep: en_passant,
            unused: 0,
        }
    }

    /// The pawn of `side` that moves to `to` promotes there.
    pub open spec fn promotes(side: Side, kind: int, to: int) -> bool {
        kind == PAWN_PIECE_TYPE && rank_of(to) == last_rank(side)
    }

    /// The records of the move from `from` to `to`: one, or one for each of
    /// knight, bishop, rook and queen where a pawn promotes.
    pub open spec fn records(&self, side: Side, kind: int, from: int, to: int) -> Seq<MoveView> {
        if Self::promotes(side, kind, to) {
            seq![
                self.record(side, kind, from, to, 0),
                self.record(side, kind, from, to, 1),
                self.record(side, kind, from, to, 2),
                self.record(side, kind, from, to, 3),
            ]
        } else {
            seq![self.record(side, kind, from, to, 0)]
        }
    }

    /// The moves from `from` to the members of `targets` below `k`, lowest first.
    pub open spec fn steps(&self, side: Side, kind: int, from: int, targets: u64, k: int) -> Seq<
        MoveView,
    >
        decreases k,
    {
        if k <= 0 {
            Seq::empty()
        } else {
            let lower = self.steps(side, kind, from, targets, k - 1);
            if bit(targets, k - 1) {
                lower + self.records(side, kind, from, k - 1)
            } else {
                lower
            }
        }
    }

    /// The moves of the pieces of `kind` and `side` that stand below `k`,
    /// lowest piece first, each to its targets within `allowed`.
    pub open spec fn kind_moves(&self, side: Side, kind: int, allowed: u64, k: int) -> Seq<MoveView>
        decreases k,
    {
        if k <= 0 {
            Seq::empty()
        } else {
            let lower = self.kind_moves(side, kind, allowed, k - 1);
            if bit(self.kind_bb(kind, side), k - 1) {
                lower + self.steps(side, kind, k - 1, self.targets(side, kind, k - 1, allowed), 64)
            } else {
                lower
            }
        }
    }

    /// The squares that a king of `side` may step on: not held by its own
    /// side, not attacked by the other.
    pub open spec fn king_allowed(&self, side: Side) -> u64 {
        !self.attack_set(side.opposite()) & !self.pieces[side.idx()]
    }

    /// The king moves of `side`, in the order of generation.
    pub open spec fn king_moves_spec(&self, side: Side) -> Seq<MoveView> {
        self.kind_moves(side, 6, self.king_allowed(side), 64)
    }

    /// The moves of the pawns, knights, bishops, rooks and queens of
    /// `side`, in the order of generation.
    pub open spec fn other_moves_spec(&self, side: Side) -> Seq<MoveView> {
        self.kind_moves(side, 1, !self.pieces[side.idx()], 64) + self.kind_moves(
            side,
            2,
            !self.pieces[side.idx()],
            64,
        ) + self.kind_moves(side, 3, !self.pieces[side.idx()], 64) + self.kind_moves(
            side,
            4,
            !self.pieces[side.idx()],
            64,
        ) + self.kind_moves(side, 5, !self.pieces[side.idx()], 64)
    }

    /// The right of `side` to castle on the king's side, or on the queen's.
    pub open spec fn has_right(&self, side: Side, kingside: bool) -> bool {
        match side {
            Side::WHITE => if kingside {
                self.castling.white_kingside
            } else {
                self.castling.white_queenside
            },
            Side::BLACK => if kingside {
                self.castling.black_kingside
            } else {
                self.castling.black_queenside
            },
        }
    }

    /// `side` may castle: it has the right, king and rook stand where they
    /// started, the squares between them are empty, and the other side
    /// attacks neither the king's square nor the two that it goes over.
    pub open spec fn may_castle(&self, side: Side, kingside: bool) -> bool {
        let home = king_home(side);
        let own = self.pieces[side.idx()];
        let attacked = self.attack_set(side.opposite());
        &&& self.has_right(side, kingside)
        &&& self.arr[home] == KING_PIECE_TYPE && bit(own, home)
        &&& !bit(attacked, home)
        &&& if kingside {
            &&& self.arr[home + 3] == ROOK_PIECE_TYPE && bit(own, home + 3)
            &&& self.arr[home + 1] == 0 && self.arr[home + 2] == 0
            &&& !bit(attacked, home + 1) && !bit(attacked, home + 2)
        } else {
            &&& self.arr[home - 4] == ROOK_PIECE_TYPE && bit(own, home - 4)
            &&& self.arr[home - 1] == 0 && self.arr[home - 2] == 0 && self.arr[home - 3] == 0
            &&& !bit(attacked, home - 1) && !bit(attacked, home - 2)
        }
    }

    /// The castling moves of `side`: the king's side first, then the queen's.
    pub open spec fn castling_moves_spec(&self, side: Side) -> Seq<MoveView> {
        let home = king_home(side);
        (if self.may_castle(side, true) {
            seq![self.record(side, 6, home, home + 2, 0)]
        } else {
            Seq::empty()
        }) + (if self.may_castle(side, false) {
            seq![self.record(side, 6, home, home - 2, 0)]
        } else {
            Seq::empty()
        })
    }

    /// All generated moves of `side`: the king's steps first, then its
    /// castlings, then the moves of the others.
    pub open spec fn generate_moves_spec(&self, side: Side) -> Seq<MoveView> {
        self.king_moves_spec(side) + self.castling_moves_spec(side) + self.other_moves_spec(side)
    }

    /// Where no target lies from `a` up to `b`, the moves below `b` are those below `a`.
    proof fn lemma_steps_gap(&self, side: Side, kind: int, from: int, targets: u64, a: int, b: int)
        requires
            a <= b,
            forall|j: int| a <= j < b ==> !bit(targets, j),
        ensures
            self.steps(side, kind, from, targets, b) == self.steps(side, kind, from, targets, a),
        decreases b - a,
    {
        if a < b {
            self.lemma_steps_gap(side, kind, from, targets, a, b - 1);
        }
    }

    proof fn lemma_steps_grow(&self, side: Side, kind: int, from: int, targets: u64, a: int, b: int)
        requires
            a <= b,
        ensures
            self.steps(side, kind, from, targets, a).len() <= self.steps(
                side,
                kind,
                from,
                targets,
                b,
            ).len(),
        decreases b - a,
    {
        if a < b {
            self.lemma_steps_grow(side, kind, from, targets, a, b - 1);
        }
    }

    proof fn lemma_kind_moves_gap(&self, side: Side, kind: int, allowed: u64, a: int, b: int)
        requires
            a <= b,
            forall|j: int| a <= j < b ==> !bit(self.kind_bb(kind, side), j),
        ensures
            self.kind_moves(side, kind, allowed, b) == self.kind_moves(side, kind, allowed, a),
        decreases b - a,
    {
        if a < b {
            self.lemma_kind_moves_gap(side, kind, allowed, a, b - 1);
        }
    }

    proof fn lemma_kind_moves_grow(&self, side: Side, kind: int, allowed: u64, a: int, b: int)
        requires
            a <= b,
        ensures
            self.kind_moves(side, kind, allowed, a).len() <= self.kind_moves(
                side,
                kind,
                allowed,
                b,
            ).len(),
        decreases b - a,
    {
        if a < b {
            self.lemma_kind_moves_grow(side, kind, allowed, a, b - 1);
        }
    }

    /// What a generated move says: a piece of the kind leaves its square for
    /// one of its targets, and the record is that move's; it names a
    /// promotion piece only where a pawn promotes.
    pub open spec fn is_step(&self, side: Side, kind: int, allowed: u64, m: MoveView) -> bool {
        let from = m.from_square as int;
        let to = m.to_square as int;
        &&& 0 <= from < 64
        &&& 0 <= to < 64
        &&& bit(self.kind_bb(kind, side), from)
        &&& bit(self.targets(side, kind, from, allowed), to)
        &&& 0 <= m.promotion_piece <= 3
        &&& m.promotion_piece != 0 ==> Self::promotes(side, kind, to)
        &&& m == self.record(side, kind, from, to, m.promotion_piece as int)
    }

    proof fn lemma_steps_members(
        &self,
        side: Side,
        kind: int,
        allowed: u64,
        from: int,
        k: int,
        i: int,
    )
        requires
            0 <= from < 64,
            0 <= k <= 64,
            bit(self.kind_bb(kind, side), from),
            0 <= i < self.steps(side, kind, from, self.targets(side, kind, from, allowed), k).len(),
        ensures
            self.is_step(
                side,
                kind,
                allowed,
                self.steps(side, kind, from, self.targets(side, kind, from, allowed), k)[i],
            ),
        decreases k,
    {
        let targets = self.targets(side, kind, from, allowed);
        let lower = self.steps(side, kind, from, targets, k - 1);
        if i < lower.len() {
            self.lemma_steps_members(side, kind, allowed, from, k - 1, i);
        }
    }

    /// Every member of the generated moves of a kind is a move of a piece
    /// of that kind to one of its targets.
    pub proof fn lemma_kind_moves_members(&self, side: Side, kind: int, allowed: u64, k: int, i: int)
        requires
            0 <= k <= 64,
            0 <= i < self.kind_moves(side, kind, allowed, k).len(),
        ensures
            self.is_step(side, kind, allowed, self.kind_moves(side, kind, allowed, k)[i]),
        decreases k,
    {
        let lower = self.kind_moves(side, kind, allowed, k - 1);
        if i < lower.len() {
            self.lemma_kind_moves_members(side, kind, allowed, k - 1, i);
        } else {
            self.lemma_steps_members(side, kind, allowed, k - 1, 64, i - lower.len());
        }
    }

    /// King safety: no generated king move ends on a square that the other
    /// side attacks in the position as it stands, nor on a square of the
    /// king's own side.
    pub proof fn lemma_king_safety(&self, side: Side, i: int)
        requires
            0 <= i < self.king_moves_spec(side).len(),
        ensures
            !bit(self.attack_set(side.opposite()), self.king_moves_spec(side)[i].to_square as int),
            !bit(self.pieces[side.idx()], self.king_moves_spec(side)[i].to_square as int),
            self.king_moves_spec(side)[i].moving_piece == 6,
    {
        let allowed = self.king_allowed(side);
        self.lemma_kind_moves_members(side, 6, allowed, 64, i);
        let m = self.king_moves_spec(side)[i];
        let from = m.from_square as int;
        lemma_bit_and(piece_attack_set(6, side, self.occupied, from), allowed);
        lemma_bit_and(!self.attack_set(side.opposite()), !self.pieces[side.idx()]);
        lemma_bit_not(self.attack_set(side.opposite()));
        lemma_bit_not(self.pieces[side.idx()]);
    }

    /// King safety of castling: no castling move ends on a square that the
    /// other side attacks in the position as it stands.
    pub proof fn lemma_castling_safety(&self, side: Side, i: int)
        requires
            0 <= i < self.castling_moves_spec(side).len(),
        ensures
            !bit(
                self.attack_set(side.opposite()),
                self.castling_moves_spec(side)[i].to_square as int,
            ),
            self.castling_moves_spec(side)[i].moving_piece == 6,
    {
    }

    /// A castling move of the side to move fits the position.
    pub proof fn lemma_castling_applicable(&self, i: int)
        requires
            self.wf(),
            0 <= i < self.castling_moves_spec(self.side_to_move).len(),
        ensures
            self.applicable(self.castling_moves_spec(self.side_to_move)[i]),
    {
        let side = self.side_to_move;
        let home = king_home(side);
        let m = self.castling_moves_spec(side)[i];
        assert(self.square_wf(home));
        assert(self.square_wf(home + 1));
        assert(self.square_wf(home + 2));
        assert(self.square_wf(home + 3));
        assert(self.square_wf(home - 1));
        assert(self.square_wf(home - 2));
        assert(self.square_wf(home - 3));
        assert(self.square_wf(home - 4));
    }

    /// A generated move of the side to move fits the position, so it can be
    /// applied, provided `allowed` holds no square of that side.
    pub proof fn lemma_step_applicable(&self, kind: int, allowed: u64, m: MoveView)
        requires
            self.wf(),
            1 <= kind <= 6,
            forall|x: int| bit(allowed, x) ==> !bit(self.pieces[self.side_to_move.idx()], x),
            self.is_step(self.side_to_move, kind, allowed, m),
        ensures
            self.applicable(m),
    {
        let side = self.side_to_move;
        let from = m.from_square as int;
        let to = m.to_square as int;
        assert(self.square_wf(from));
        assert(self.square_wf(to));
        if kind == 1 {
            lemma_bit_and(self.pawn_targets(side, from), allowed);
            lemma_bitboard_of(|t: int| self.pawn_reaches(side, from, t));
            assert(self.pawn_reaches(side, from, to));
            let victim = rank_of(from) * 8 + file_of(to);
            if m.is_ep {
                assert(victim == ep_victim(m));
                assert(0 <= victim < 64);
                assert(self.square_wf(victim));
            }
        } else {
            lemma_bit_and(piece_attack_set(kind, side, self.occupied, from), allowed);
            lemma_bitboard_of(|t: int| piece_reaches(kind, side, self.occupied, from, t));
            assert(piece_reaches(kind, side, self.occupied, from, to));
        }
    }

    /// Every generated move of the side to move fits the position.
    pub proof fn lemma_generated_applicable(&self, i: int)
        requires
            self.wf(),
            0 <= i < self.generate_moves_spec(self.side_to_move).len(),
        ensures
            self.applicable(self.generate_moves_spec(self.side_to_move)[i]),
    {
        let side = self.side_to_move;
        let own = self.pieces[side.idx()];
        let free = !own;
        lemma_bit_not(own);
        lemma_bit_not(self.attack_set(side.opposite()));
        lemma_bit_and(!self.attack_set(side.opposite()), free);
        let king = self.king_moves_spec(side);
        let castlings = self.castling_moves_spec(side);
        let pawns = self.kind_moves(side, 1, free, 64);
        let knights = self.kind_moves(side, 2, free, 64);
        let bishops = self.kind_moves(side, 3, free, 64);
        let rooks = self.kind_moves(side, 4, free, 64);
        let queens = self.kind_moves(side, 5, free, 64);
        let m = self.generate_moves_spec(side)[i];
        if i < king.len() {
            self.lemma_kind_moves_members(side, 6, self.king_allowed(side), 64, i);
            self.lemma_step_applicable(6, self.king_allowed(side), m);
        } else if i < king.len() + castlings.len() {
            assert(m == castlings[i - king.len()]);
            self.lemma_castling_applicable(i - king.len());
        } else {
            let j = i - king.len() - castlings.len();
            assert(m == self.other_moves_spec(side)[j]);
            if j < pawns.len() {
                self.lemma_kind_moves_members(side, 1, free, 64, j);
                self.lemma_step_applicable(1, free, m);
            } else if j < pawns.len() + knights.len() {
                self.lemma_kind_moves_members(side, 2, free, 64, j - pawns.len());
                self.lemma_step_applicable(2, free, m);
            } else if j < pawns.len() + knights.len() + bishops.len() {
                self.lemma_kind_moves_members(side, 3, free, 64, j - pawns.len() - knights.len());
                self.lemma_step_applicable(3, free, m);
            } else if j < pawns.len() + knights.len() + bishops.len() + rooks.len() {
                self.lemma_kind_moves_members(
                    side,
                    4,
                    free,
                    64,
                    j - pawns.len() - knights.len() - bishops.len(),
                );
                self.lemma_step_applicable(4, free, m);
            } else {
                self.lemma_kind_moves_members(
                    side,
                    5,
                    free,
                    64,
                    j - pawns.len() - knights.len() - bishops.len() - rooks.len(),
                );
                self.lemma_step_applicable(5, free, m);
            }
        }
    }

    /// Move reversibility: applying a generated move of the side to move
    /// and taking it back gives the position from which one started, in
    /// every bit.
    pub proof fn lemma_generated_move_reversible(&self, i: int, made: &Board, back: &Board)
        requires
            self.wf(),
            0 <= i < self.generate_moves_spec(self.side_to_move).len(),
            made.wf(),
            self.made(made, self.generate_moves_spec(self.side_to_move)[i]),
            back.wf(),
            made.unmade(back, self.generate_moves_spec(self.side_to_move)[i]),
        ensures
            self.applicable(self.generate_moves_spec(self.side_to_move)[i]),
            *back == *self,
    {
        self.lemma_generated_applicable(i);
        self.lemma_make_unmake(made, back, self.generate_moves_spec(self.side_to_move)[i]);
    }

    /// Where a pawn of `side` on `from` may move.
    fn pawn_targets_of(&self, side: Side, from: usize) -> (targets: u64)
        requires
            self.wf(),
            from < 64,
        ensures
            targets == self.pawn_targets(side, from as int),
    {
        let ghost s = from as int;
        let other = core::ops::Not::not(side);
        let rank = from / 8;
        let aslant = self.pawn_attack_table[side.index()][from];
        let theirs = self.pieces[other.index()];
        let mut targets = aslant & theirs;
        proof {
            assert(self.pawn_attack_table[0][s] == pawn_attacks(Side::WHITE, s));
            assert(self.pawn_attack_table[1][s] == pawn_attacks(Side::BLACK, s));
            lemma_bitboard_of(|t: int| pawn_step(side, s, t));
            lemma_bit_and(aslant, theirs);
        }
        let ahead_on_board = match side {
            Side::WHITE => rank < 7,
            Side::BLACK => rank > 0,
        };
        if ahead_on_board {
            let one = match side {
                Side::WHITE => from + 8,
                Side::BLACK => from - 8,
            };
            if self.arr[one] == 0 {
                let ghost before = targets;
                let bit_one = square_bit(one);
                targets = targets | bit_one;
                proof {
                    lemma_bit_or(before, bit_one);
                }
                let on_start = match side {
                    Side::WHITE => rank == 1,
                    Side::BLACK => rank == 6,
                };
                if on_start {
                    let two = match side {
                        Side::WHITE => from + 16,
                        Side::BLACK => from - 16,
                    };
                    if self.arr[two] == 0 {
                        let ghost before = targets;
                        let bit_two = square_bit(two);
                        targets = targets | bit_two;
                        proof {
                            lemma_bit_or(before, bit_two);
                        }
                    }
                }
            }
        }
        let ghost pushes = targets;
        match self.ep {
            Some(file) => {
                let landing_rank: usize = match side {
                    Side::WHITE => 5,
                    Side::BLACK => 2,
                };
                let landing = landing_rank * 8 + file as usize;
                let victim = match side {
                    Side::WHITE => landing - 8,
                    Side::BLACK => landing + 8,
                };
                if test_bit(aslant, landing) && self.arr[landing] == 0 && self.arr[victim] == PAWN_PIECE_TYPE
                    && test_bit(theirs, victim) {
                    let bit_landing = square_bit(landing);
                    targets = targets | bit_landing;
                    proof {
                        lemma_bit_or(pushes, bit_landing);
                    }
                }
            },
            None => {},
        }
        proof {
            lemma_bitboard_of(|t: int| self.pawn_reaches(side, s, t));
            assert forall|t: int| 0 <= t < 64 implies bit(targets, t) == bit(
                self.pawn_targets(side, s),
                t,
            ) by {
                assert(self.square_wf(t));
            }
            lemma_bits_equal(targets, self.pawn_targets(side, s));
        }
        targets
    }

    /// The targets of a piece of `kind` and `side` on `from` within `allowed`.
    fn targets_of(&self, kind: u8, side: Side, from: usize, allowed: u64) -> (targets: u64)
        requires
            self.wf(),
            1 <= kind <= 6,
            from < 64,
        ensures
            targets == self.targets(side, kind as int, from as int, allowed),
    {
        if kind == PAWN_PIECE_TYPE {
            self.pawn_targets_of(side, from) & allowed
        } else {
            self.piece_attacks(kind, side, from) & allowed
        }
    }

    /// Builds the record of one move.
    fn make_record(&self, side: Side, kind: u8, from: usize, to: usize, promotion: u8) -> (mv: Move)
        requires
            self.wf(),
            1 <= kind <= 6,
            from < 64,
            to < 64,
            promotion <= 3,
        ensures
            mv@ == self.record(side, kind as int, from as int, to as int, promotion as int),
    {
        let mut mv = Move::new();
        mv.set_from_square(from);
        mv.set_to_square(to);
        mv.set_moving_piece(kind);
        let other = core::ops::Not::not(side);
        proof {
            assert(self.square_wf(to as int));
        }
        if kind == PAWN_PIECE_TYPE && from % 8 != to % 8 && self.arr[to] == 0 {
            mv.set_captured_piece(PAWN_PIECE_TYPE);
            mv.set_is_ep();
        } else if test_bit(self.pieces[other.index()], to) {
            mv.set_captured_piece(self.arr[to]);
        }
        mv.set_promotion_piece(promotion);
        mv.set_prev_ep(self.ep);
        mv.set_castling_rights(self.castling);
        mv
    }

    /// Appends the moves from `from` to every member of `targets`.
    fn emit_steps(&self, moves: &mut Moves, side: Side, kind: u8, from: usize, targets: u64)
        requires
            self.wf(),
            1 <= kind <= 6,
            from < 64,
            move_list(*old(moves)).len() + self.steps(
                side,
                kind as int,
                from as int,
                targets,
                64,
            ).len() <= MOVES_CAPACITY,
        ensures
            extends(
                move_list(*old(moves)),
                move_list(*final(moves)),
                self.steps(side, kind as int, from as int, targets, 64),
            ),
    {
        let ghost start = move_list(*moves);
        let ghost cursor: int = 0;
        let ghost k = kind as int;
        let ghost s = from as int;
        let mut rest = targets;
        let last: usize = match side {
            Side::WHITE => 7,
            Side::BLACK => 0,
        };
        while rest != 0
            invariant
                self.wf(),
                1 <= kind <= 6,
                k == kind as int,
                s == from as int,
                from < 64,
                last == last_rank(side),
                0 <= cursor <= 64,
                forall|j: int| #[trigger] bit(rest, j) == (bit(targets, j) && j >= cursor),
                extends(start, move_list(*moves), self.steps(side, k, s, targets, cursor)),
                start.len() + self.steps(side, k, s, targets, 64).len() <= MOVES_CAPACITY,
            decreases rest,
        {
            let ghost before = rest;
            let to = pop_lsb(&mut rest);
            let ghost below = self.steps(side, k, s, targets, to as int);
            proof {
                assert forall|j: int| cursor <= j < to implies !bit(targets, j) by {
                    assert(!bit(before, j));
                }
                self.lemma_steps_gap(side, k, s, targets, cursor, to as int);
                self.lemma_steps_grow(side, k, s, targets, to + 1, 64);
                assert(self.steps(side, k, s, targets, to + 1) == below + self.records(
                    side,
                    k,
                    s,
                    to as int,
                ));
            }
            if kind == PAWN_PIECE_TYPE && to / 8 == last {
                let ghost l0 = move_list(*moves);
                let m0 = self.make_record(side, kind, from, to, 0);
                push_move(moves, m0);
                let ghost l1 = move_list(*moves);
                let m1 = self.make_record(side, kind, from, to, 1);
                push_move(moves, m1);
                let ghost l2 = move_list(*moves);
                let m2 = self.make_record(side, kind, from, to, 2);
                push_move(moves, m2);
                let ghost l3 = move_list(*moves);
                let m3 = self.make_record(side, kind, from, to, 3);
                push_move(moves, m3);
                proof {
                    lemma_extends_push(start, l0, l1, below, m0);
                    lemma_extends_push(start, l1, l2, below.push(m0@), m1);
                    lemma_extends_push(start, l2, l3, below.push(m0@).push(m1@), m2);
                    lemma_extends_push(
                        start,
                        l3,
                        move_list(*moves),
                        below.push(m0@).push(m1@).push(m2@),
                        m3,
                    );
                    assert(below.push(m0@).push(m1@).push(m2@).push(m3@) =~= below + self.records(
                        side,
                        k,
                        s,
                        to as int,
                    ));
                }
            } else {
                let ghost l0 = move_list(*moves);
                let m0 = self.make_record(side, kind, from, to, 0);
                push_move(moves, m0);
                proof {
                    lemma_extends_push(start, l0, move_list(*moves), below, m0);
                    assert(below.push(m0@) =~= below + self.records(side, k, s, to as int));
                }
            }
            proof {
                cursor = to + 1;
            }
        }
        proof {
            lemma_bit_zero();
            assert forall|j: int| cursor <= j < 64 implies !bit(targets, j) by {
                assert(!bit(rest, j));
            }
            self.lemma_steps_gap(side, k, s, targets, cursor, 64);
        }
    }

    /// Appends the moves of every piece of `kind` and `side` to its targets
    /// within `allowed`.
    fn emit_kind(&self, moves: &mut Moves, side: Side, kind: u8, allowed: u64)
        requires
            self.wf(),
            1 <= kind <= 6,
            move_list(*old(moves)).len() + self.kind_moves(side, kind as int, allowed, 64).len()
                <= MOVES_CAPACITY,
        ensures
            extends(
                move_list(*old(moves)),
                move_list(*final(moves)),
                self.kind_moves(side, kind as int, allowed, 64),
            ),
    {
        let ghost start = move_list(*moves);
        let ghost cursor: int = 0;
        let ghost from_set = self.kind_bb(kind as int, side);
        let mut rest = self.kind_bb_of(kind, side);
        while rest != 0
            invariant
                self.wf(),
                1 <= kind <= 6,
                0 <= cursor <= 64,
                from_set == self.kind_bb(kind as int, side),
                forall|j: int| #[trigger] bit(rest, j) == (bit(from_set, j) && j >= cursor),
                extends(start, move_list(*moves), self.kind_moves(side, kind as int, allowed, cursor)),
                start.len() + self.kind_moves(side, kind as int, allowed, 64).len()
                    <= MOVES_CAPACITY,
            decreases rest,
        {
            let ghost before = rest;
            let from = pop_lsb(&mut rest);
            let targets = self.targets_of(kind, side, from, allowed);
            proof {
                assert forall|j: int| cursor <= j < from implies !bit(from_set, j) by {
                    assert(!bit(before, j));
                }
                self.lemma_kind_moves_gap(side, kind as int, allowed, cursor, from as int);
                self.lemma_kind_moves_grow(side, kind as int, allowed, from + 1, 64);
                assert(self.kind_moves(side, kind as int, allowed, from + 1) == self.kind_moves(
                    side,
                    kind as int,
                    allowed,
                    from as int,
                ) + self.steps(side, kind as int, from as int, targets, 64));
            }
            let ghost earlier = move_list(*moves);
            self.emit_steps(moves, side, kind, from, targets);
            proof {
                lemma_extends_twice(
                    start,
                    earlier,
                    move_list(*moves),
                    self.kind_moves(side, kind as int, allowed, from as int),
                    self.steps(side, kind as int, from as int, targets, 64),
                );
                cursor = from + 1;
            }
        }
        proof {
            lemma_bit_zero();
            assert forall|j: int| cursor <= j < 64 implies !bit(from_set, j) by {
                assert(!bit(rest, j));
            }
            self.lemma_kind_moves_gap(side, kind as int, allowed, cursor, 64);
        }
    }

    /// Appends the moves of the king of `side`: to every neighbouring square
    /// that its own side does not hold and the other side does not attack.
    pub fn king_moves(&self, moves: &mut Moves, side: Side)
        requires
            self.wf(),
            move_list(*old(moves)).len() + self.king_moves_spec(side).len() <= MOVES_CAPACITY,
        ensures
            extends(move_list(*old(moves)), move_list(*final(moves)), self.king_moves_spec(side)),
            forall|i: int|
                move_list(*old(moves)).len() <= i < move_list(*final(moves)).len() ==> !bit(
                    self.attack_set(side.opposite()),
                    (#[trigger] move_list(*final(moves))[i])@.to_square as int,
                ),
    {
        let opponent_attacks = self.attacks(core::ops::Not::not(side));
        let allowed = !opponent_attacks & !self.pieces[side.index()];
        self.emit_kind(moves, side, KING_PIECE_TYPE, allowed);
        proof {
            let before = move_list(*old(moves)).len();
            assert forall|i: int| before <= i < move_list(*moves).len() implies !bit(
                self.attack_set(side.opposite()),
                (#[trigger] move_list(*moves)[i])@.to_square as int,
            ) by {
                self.lemma_king_safety(side, i - before);
                assert(move_list(*moves)[before + (i - before)]@ == self.king_moves_spec(side)[i
                    - before]);
            }
        }
    }

    /// Appends the castling moves of `side`: the king goes two files towards
    /// the rook, on the king's side first, then on the queen's.
    pub fn castling_moves(&self, moves: &mut Moves, side: Side)
        requires
            self.wf(),
            move_list(*old(moves)).len() + self.castling_moves_spec(side).len() <= MOVES_CAPACITY,
        ensures
            extends(
                move_list(*old(moves)),
                move_list(*final(moves)),
                self.castling_moves_spec(side),
            ),
    {
        let ghost start = move_list(*moves);
        let home: usize = match side {
            Side::WHITE => 4,
            Side::BLACK => 60,
        };
        let (kingside, queenside) = match side {
            Side::WHITE => (self.castling.white_kingside, self.castling.white_queenside),
            Side::BLACK => (self.castling.black_kingside, self.castling.black_queenside),
        };
        let own = self.pieces[side.index()];
        let attacked = self.attacks(core::ops::Not::not(side));
        let king_ready = self.arr[home] == KING_PIECE_TYPE && test_bit(own, home) && !test_bit(attacked, home);
        let ghost short: Seq<MoveView> = if self.may_castle(side, true) {
            seq![self.record(side, 6, home as int, home + 2, 0)]
        } else {
            Seq::empty()
        };
        if kingside && king_ready && self.arr[home + 3] == ROOK_PIECE_TYPE && test_bit(own, home + 3)
            && self.arr[home + 1] == 0 && self.arr[home + 2] == 0 && !test_bit(attacked, home + 1)
            && !test_bit(attacked, home + 2) {
            let mv = self.make_record(side, KING_PIECE_TYPE, home, home + 2, 0);
            push_move(moves, mv);
            proof {
                assert(extends(start, start, Seq::<MoveView>::empty()));
                lemma_extends_push(start, start, move_list(*moves), Seq::empty(), mv);
                assert(Seq::<MoveView>::empty().push(mv@) =~= short);
            }
        }
        let ghost middle = move_list(*moves);
        if queenside && king_ready && self.arr[home - 4] == ROOK_PIECE_TYPE && test_bit(own, home - 4)
            && self.arr[home - 1] == 0 && self.arr[home - 2] == 0 && self.arr[home - 3] == 0
            && !test_bit(attacked, home - 1) && !test_bit(attacked, home - 2) {
            let mv = self.make_record(side, KING_PIECE_TYPE, home, home - 2, 0);
            push_move(moves, mv);
            proof {
                lemma_extends_push(start, middle, move_list(*moves), short, mv);
                assert(short.push(mv@) =~= self.castling_moves_spec(side));
            }
        } else {
            proof {
                assert(short =~= self.castling_moves_spec(side));
            }
        }
    }

    /// Appends the moves of the pawns, knights, bishops, rooks and queens of
    /// `side`: a pawn to where it may move, another piece to every square
    /// that it attacks and its own side does not hold.
    pub fn other_moves(&self, moves: &mut Moves, side: Side)
        requires
            self.wf(),
            move_list(*old(moves)).len() + self.other_moves_spec(side).len() <= MOVES_CAPACITY,
        ensures
            extends(move_list(*old(moves)), move_list(*final(moves)), self.other_moves_spec(side)),
    {
        let allowed = !self.pieces[side.index()];
        let ghost l0 = move_list(*moves);
        let ghost pawns = self.kind_moves(side, 1, allowed, 64);
        let ghost knights = self.kind_moves(side, 2, allowed, 64);
        let ghost bishops = self.kind_moves(side, 3, allowed, 64);
        let ghost rooks = self.kind_moves(side, 4, allowed, 64);
        let ghost queens = self.kind_moves(side, 5, allowed, 64);
        self.emit_kind(moves, side, PAWN_PIECE_TYPE, allowed);
        let ghost l1 = move_list(*moves);
        self.emit_kind(moves, side, KNIGHT_PIECE_TYPE, allowed);
        let ghost l2 = move_list(*moves);
        self.emit_kind(moves, side, BISHOP_PIECE_TYPE, allowed);
        let ghost l3 = move_list(*moves);
        self.emit_kind(moves, side, ROOK_PIECE_TYPE, allowed);
        let ghost l4 = move_list(*moves);
        self.emit_kind(moves, side, QUEEN_PIECE_TYPE, allowed);
        proof {
            lemma_extends_twice(l0, l1, l2, pawns, knights);
            lemma_extends_twice(l0, l2, l3, pawns + knights, bishops);
            lemma_extends_twice(l0, l3, l4, pawns + knights + bishops, rooks);
            lemma_extends_twice(
                l0,
                l4,
                move_list(*moves),
                pawns + knights + bishops + rooks,
                queens,
            );
        }
    }

    /// Appends every generated move of `side`: the king's steps, then its
    /// castlings, then the moves of the others.
    pub fn generate_moves(&self, moves: &mut Moves, side: Side)
        requires
            self.wf(),
            move_list(*old(moves)).len() + self.generate_moves_spec(side).len() <= MOVES_CAPACITY,
        ensures
            extends(
                move_list(*old(moves)),
                move_list(*final(moves)),
                self.generate_moves_spec(side),
            ),
    {
        let ghost l0 = move_list(*moves);
        self.king_moves(moves, side);
        let ghost l1 = move_list(*moves);
        self.castling_moves(moves, side);
        let ghost l2 = move_list(*moves);
        self.other_moves(moves, side);
        proof {
            lemma_extends_twice(
                l0,
                l1,
                l2,
                self.king_moves_spec(side),
                self.castling_moves_spec(side),
            );
            lemma_extends_twice(
                l0,
                l2,
                move_list(*moves),
                self.king_moves_spec(side) + self.castling_moves_spec(side),
                self.other_moves_spec(side),
            );
        }
    }
}

} // verus!
