//! Legal moves: the generated moves that do not leave the mover's king
//! attacked. Each candidate is applied, the position is looked at, and the
//! candidate is taken back.

use vstd::prelude::*;
use crate::board::Board;
use crate::moves::{
    extends, lemma_extends_push, move_at, move_list, moves_len, new_moves, push_move, Move,
    MoveView, Moves, MOVES_CAPACITY,
};
use crate::side::Side;

verus! {

impl Board {
    /// A king of `side` stands on a square that the other side attacks.
    pub open spec fn in_check(&self, side: Side) -> bool {
        self.attack_set(side.opposite()) & self.kings[side.idx()] != 0
    }

    /// The position that applying `m` gives.
    pub open spec fn after_move(&self, m: MoveView) -> Board {
        choose|after: Board| after.wf() && self.made(&after, m)
    }

    /// Applying `m` does not leave a king of the side that moves attacked.
    pub open spec fn keeps_king_safe(&self, m: MoveView) -> bool {
        !self.after_move(m).in_check(self.side_to_move)
    }

    /// The legal ones among the first `k` generated moves of the side to
    /// move, in the order of generation.
    pub open spec fn legal_among(&self, k: int) -> Seq<MoveView>
        decreases k,
    {
        if k <= 0 {
            Seq::empty()
        } else {
            let earlier = self.legal_among(k - 1);
            let m = self.generate_moves_spec(self.side_to_move)[k - 1];
            if self.keeps_king_safe(m) {
                earlier.push(m)
            } else {
                earlier
            }
        }
    }

    /// The legal moves of the side to move, in the order of generation.
    pub open spec fn legal_moves_spec(&self) -> Seq<MoveView> {
        self.legal_among(self.generate_moves_spec(self.side_to_move).len() as int)
    }

    proof fn lemma_legal_grows(&self, a: int, b: int)
        requires
            a <= b,
        ensures
            self.legal_among(a).len() <= self.legal_among(b).len(),
        decreases b - a,
    {
        if a < b {
            self.lemma_legal_grows(a, b - 1);
        }
    }

    /// Whether a king of `side` stands attacked.
    pub fn is_in_check(&self, side: Side) -> (check: bool)
        requires
            self.tables_wf(),
        ensures
            check == self.in_check(side),
    {
        let attacked = self.attacks(core::ops::Not::not(side));
        attacked & self.kings[side.index()] != 0
    }

    /// Appends the legal moves of the side to move: every generated move
    /// after which no king of that side stands attacked. The position is
    /// left as it was.
    pub fn legal_moves(&mut self, moves: &mut Moves)
        requires
            old(self).wf(),
            old(self).generate_moves_spec(old(self).side_to_move).len() <= MOVES_CAPACITY,
            move_list(*old(moves)).len() + old(self).legal_moves_spec().len() <= MOVES_CAPACITY,
        ensures
            *final(self) == *old(self),
            extends(
                move_list(*old(moves)),
                move_list(*final(moves)),
                old(self).legal_moves_spec(),
            ),
    {
        let ghost position = *self;
        let ghost start = move_list(*moves);
        let side = self.side_to_move;
        let ghost generated = self.generate_moves_spec(side);
        let mut candidates = new_moves();
        self.generate_moves(&mut candidates, side);
        let count = moves_len(&candidates);
        let mut i: usize = 0;
        while i < count
            invariant
                i <= count,
                count == generated.len(),
                *self == position,
                position.wf(),
                side == position.side_to_move,
                generated == position.generate_moves_spec(side),
                extends(Seq::<Move>::empty(), move_list(candidates), generated),
                extends(start, move_list(*moves), position.legal_among(i as int)),
                start.len() + position.legal_moves_spec().len() <= MOVES_CAPACITY,
            decreases count - i,
        {
            let mv = move_at(&candidates, i);
            proof {
                assert(move_list(candidates)[0 + i]@ == generated[i as int]);
                position.lemma_generated_applicable(i as int);
            }
            self.make_move(mv);
            let ghost made = *self;
            let safe = !self.is_in_check(side);
            self.unmake_move(mv);
            proof {
                position.lemma_make_unmake(&made, self, mv@);
                let chosen = position.after_move(mv@);
                assert(chosen.wf() && position.made(&chosen, mv@));
                chosen.lemma_determined(&made);
                assert(safe == position.keeps_king_safe(mv@));
                position.lemma_legal_grows(i + 1, count as int);
            }
            if safe {
                let ghost earlier = move_list(*moves);
                push_move(moves, mv);
                proof {
                    lemma_extends_push(
                        start,
                        earlier,
                        move_list(*moves),
                        position.legal_among(i as int),
                        mv,
                    );
                }
            }
            i = i + 1;
        }
    }
}

} // verus!
