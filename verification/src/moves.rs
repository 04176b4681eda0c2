//! The packed move record: one ply and everything needed to take it back.
//!
//! Bits 0-5 hold the square moved from, bits 6-11 the square moved to, bits
//! 12-14 the moving piece, bits 15-17 the captured piece, bits 18-19 the
//! promotion piece, bit 20 whether an en-passant capture was possible before
//! the move and bits 21-23 on which file, bits 24-27 the castling rights
//! before the move (white queenside, white kingside, black queenside, black
//! kingside), and bit 28 whether the move itself captures en passant.

use vstd::prelude::*;

verus! {

/// No piece.
pub const NONE_PIECE_TYPE: u8 = 0x0;

/// The kind of a pawn.
pub const PAWN_PIECE_TYPE: u8 = 0x1;

/// The kind of a knight.
pub const KNIGHT_PIECE_TYPE: u8 = 0x2;

/// The kind of a bishop.
pub const BISHOP_PIECE_TYPE: u8 = 0x3;

/// The kind of a rook.
pub const ROOK_PIECE_TYPE: u8 = 0x4;

/// The kind of a queen.
pub const QUEEN_PIECE_TYPE: u8 = 0x5;

/// The kind of a king.
pub const KING_PIECE_TYPE: u8 = 0x6;

/// Promotion to a knight.
pub const PROMO_KNIGHT: u8 = 0x0;

/// Promotion to a bishop.
pub const PROMO_BISHOP: u8 = 0x1;

/// Promotion to a rook.
pub const PROMO_ROOK: u8 = 0x2;

/// Promotion to a queen.
pub const PROMO_QUEEN: u8 = 0x3;

/// Which of the four castlings are still allowed.
#[derive(Clone, Debug, Copy, PartialEq, Eq, Structural)]
pub struct CastlingRights {
    pub white_kingside: bool,
    pub white_queenside: bool,
    pub black_kingside: bool,
    pub black_queenside: bool,
}

/// What a move record says, field by field.
pub struct MoveView {
    pub from_square: u32,
    pub to_square: u32,
    pub moving_piece: u32,
    pub captured_piece: u32,
    pub promotion_piece: u32,
    pub is_prev_ep: bool,
    pub prev_ep_file: u32,
    pub castling: CastlingRights,
    pub is_ep: bool,
    /// The three bits above the last field; no setter touches them.
    pub unused: u32,
}

/// The field of `mask` width that starts at bit `shift`.
pub open spec fn field(bits: u32, shift: u32, mask: u32) -> u32 {
    (bits >> shift) & mask
}

spec fn is_field(shift: u32, mask: u32) -> bool {
    ||| shift == 0 && mask == 0x3f
    ||| shift == 6 && mask == 0x3f
    ||| shift == 12 && mask == 7
    ||| shift == 15 && mask == 7
    ||| shift == 18 && mask == 3
    ||| shift == 21 && mask == 7
}

spec fn is_flag(shift: u32) -> bool {
    shift == 20 || (24 <= shift <= 28)
}

spec fn kept_or_joined(before: u32, after: u32, at: u32, shift: u32, mask: u32, joined: u32) -> bool {
    field(after, at, mask) == if at == shift {
        field(before, at, mask) | joined
    } else {
        field(before, at, mask)
    }
}

proof fn bv_join_field(b: u32, v: u32, s: u32, m: u32)
    by (bit_vector)
    requires
        is_field(s, m),
    ensures
        kept_or_joined(b, b | ((v & m) << s), 0, s, 0x3f, v & m),
        kept_or_joined(b, b | ((v & m) << s), 6, s, 0x3f, v & m),
        kept_or_joined(b, b | ((v & m) << s), 12, s, 7, v & m),
        kept_or_joined(b, b | ((v & m) << s), 15, s, 7, v & m),
        kept_or_joined(b, b | ((v & m) << s), 18, s, 3, v & m),
        kept_or_joined(b, b | ((v & m) << s), 20, s, 1, v & m),
        kept_or_joined(b, b | ((v & m) << s), 21, s, 7, v & m),
        kept_or_joined(b, b | ((v & m) << s), 24, s, 1, v & m),
        kept_or_joined(b, b | ((v & m) << s), 25, s, 1, v & m),
        kept_or_joined(b, b | ((v & m) << s), 26, s, 1, v & m),
        kept_or_joined(b, b | ((v & m) << s), 27, s, 1, v & m),
        kept_or_joined(b, b | ((v & m) << s), 28, s, 1, v & m),
        kept_or_joined(b, b | ((v & m) << s), 29, s, 7, v & m),
        v <= m ==> v & m == v,
        0u32 | (v & m) == v & m,
        s == 0 ==> (v & m) << s == v & m,
{
}

proof fn bv_raise_flag(b: u32, s: u32)
    by (bit_vector)
    requires
        is_flag(s),
    ensures
        kept_or_joined(b, b | (1u32 << s), 0, s, 0x3f, 1),
        kept_or_joined(b, b | (1u32 << s), 6, s, 0x3f, 1),
        kept_or_joined(b, b | (1u32 << s), 12, s, 7, 1),
        kept_or_joined(b, b | (1u32 << s), 15, s, 7, 1),
        kept_or_joined(b, b | (1u32 << s), 18, s, 3, 1),
        kept_or_joined(b, b | (1u32 << s), 20, s, 1, 1),
        kept_or_joined(b, b | (1u32 << s), 21, s, 7, 1),
        kept_or_joined(b, b | (1u32 << s), 24, s, 1, 1),
        kept_or_joined(b, b | (1u32 << s), 25, s, 1, 1),
        kept_or_joined(b, b | (1u32 << s), 26, s, 1, 1),
        kept_or_joined(b, b | (1u32 << s), 27, s, 1, 1),
        kept_or_joined(b, b | (1u32 << s), 28, s, 1, 1),
        kept_or_joined(b, b | (1u32 << s), 29, s, 7, 1),
        field(b, s, 1) | 1 != 0,
{
}

proof fn bv_field_bound(b: u32, s: u32, m: u32)
    by (bit_vector)
    ensures
        field(b, s, m) <= m,
        field(0, s, m) == 0,
        b & m == field(b, 0, m),
{
}

proof fn bv_same_fields(a: u32, b: u32)
    by (bit_vector)
    requires
        field(a, 0, 0x3f) == field(b, 0, 0x3f),
        field(a, 6, 0x3f) == field(b, 6, 0x3f),
        field(a, 12, 7) == field(b, 12, 7),
        field(a, 15, 7) == field(b, 15, 7),
        field(a, 18, 3) == field(b, 18, 3),
        (field(a, 20, 1) != 0) == (field(b, 20, 1) != 0),
        field(a, 21, 7) == field(b, 21, 7),
        (field(a, 24, 1) != 0) == (field(b, 24, 1) != 0),
        (field(a, 25, 1) != 0) == (field(b, 25, 1) != 0),
        (field(a, 26, 1) != 0) == (field(b, 26, 1) != 0),
        (field(a, 27, 1) != 0) == (field(b, 27, 1) != 0),
        (field(a, 28, 1) != 0) == (field(b, 28, 1) != 0),
        field(a, 29, 7) == field(b, 29, 7),
    ensures
        a == b,
{
}

/// One ply, packed into 29 bits.
#[derive(Debug, Clone, Copy, PartialEq, Eq)]
pub struct Move(u32);

impl View for Move {
    type V = MoveView;

    closed spec fn view(&self) -> MoveView {
        MoveView {
            from_square: field(self.0, 0, 0x3f),
            to_square: field(self.0, 6, 0x3f),
            moving_piece: field(self.0, 12, 7),
            captured_piece: field(self.0, 15, 7),
            promotion_piece: field(self.0, 18, 3),
            is_prev_ep: field(self.0, 20, 1) != 0,
            prev_ep_file: field(self.0, 21, 7),
            castling: CastlingRights {
                white_queenside: field(self.0, 24, 1) != 0,
                white_kingside: field(self.0, 25, 1) != 0,
                black_queenside: field(self.0, 26, 1) != 0,
                black_kingside: field(self.0, 27, 1) != 0,
            },
            is_ep: field(self.0, 28, 1) != 0,
            unused: field(self.0, 29, 7),
        }
    }
}

impl MoveView {
    /// The record in which no field has been set.
    pub open spec fn blank() -> MoveView {
        MoveView {
            from_square: 0,
            to_square: 0,
            moving_piece: 0,
            captured_piece: 0,
            promotion_piece: 0,
            is_prev_ep: false,
            prev_ep_file: 0,
            castling: CastlingRights {
                white_queenside: false,
                white_kingside: false,
                black_queenside: false,
                black_kingside: false,
            },
            is_ep: false,
            unused: 0,
        }
    }

    /// The en-passant file that the record remembers, if any.
    pub open spec fn prev_ep(self) -> Option<u8> {
        if self.is_prev_ep {
            Some(self.prev_ep_file as u8)
        } else {
            None
        }
    }
}

/// Two records that say the same are the same record.
pub proof fn lemma_view_determines(a: Move, b: Move)
    requires
        a@ == b@,
    ensures
        a == b,
{
    bv_same_fields(a.0, b.0);
}

impl Default for Move {
    fn default() -> (mv: Move)
        ensures
            mv@ == MoveView::blank(),
    {
        Move::new()
    }
}

impl Move {
    /// The blank record. The setters join their argument to what a field
    /// already holds, so a record is built from the blank one.
    pub fn new() -> (mv: Self)
        ensures
            mv@ == MoveView::blank(),
    {
        proof {
            bv_field_bound(0, 0, 0x3f);
            bv_field_bound(0, 6, 0x3f);
            bv_field_bound(0, 12, 7);
            bv_field_bound(0, 15, 7);
            bv_field_bound(0, 18, 3);
            bv_field_bound(0, 20, 1);
            bv_field_bound(0, 21, 7);
            bv_field_bound(0, 24, 1);
            bv_field_bound(0, 25, 1);
            bv_field_bound(0, 26, 1);
            bv_field_bound(0, 27, 1);
            bv_field_bound(0, 28, 1);
            bv_field_bound(0, 29, 7);
        }
        Self(0)
    }

    /// The square that the piece leaves.
    pub fn from_square(&self) -> (square: usize)
        ensures
            square == self@.from_square,
            square < 64,
    {
        proof {
            bv_field_bound(self.0, 0, 0x3f);
        }
        (self.0 & 0b111111) as usize
    }

    /// The square that the piece moves to.
    pub fn to_square(&self) -> (square: usize)
        ensures
            square == self@.to_square,
            square < 64,
    {
        proof {
            bv_field_bound(self.0, 6, 0x3f);
        }
        ((self.0 >> 6u32) & 0b111111) as usize
    }

    /// The kind of piece that moves.
    pub fn moving_piece(&self) -> (piece: u8)
        ensures
            piece == self@.moving_piece,
            piece <= 7,
    {
        proof {
            bv_field_bound(self.0, 12, 7);
        }
        ((self.0 >> 12u32) & 0b111) as u8
    }

    /// The kind of piece that is captured; 0 for none.
    pub fn captured_piece(&self) -> (piece: u8)
        ensures
            piece == self@.captured_piece,
            piece <= 7,
    {
        proof {
            bv_field_bound(self.0, 15, 7);
        }
        ((self.0 >> 15u32) & 0b111) as u8
    }

    /// What a pawn that reaches the last rank becomes: knight, bishop, rook
    /// or queen, numbered from 0.
    pub fn promotion_piece(&self) -> (piece: u8)
        ensures
            piece == self@.promotion_piece,
            piece <= 3,
    {
        proof {
            bv_field_bound(self.0, 18, 3);
        }
        ((self.0 >> 18u32) & 0b11) as u8
    }

    /// Whether an en-passant capture was possible before the move.
    pub fn is_prev_ep(&self) -> (flag: bool)
        ensures
            flag == self@.is_prev_ep,
    {
        ((self.0 >> 20u32) & 0b1) != 0
    }

    /// The file on which an en-passant capture was possible before the move.
    pub fn prev_ep_file(&self) -> (file: u8)
        ensures
            file == self@.prev_ep_file,
            file <= 7,
    {
        proof {
            bv_field_bound(self.0, 21, 7);
        }
        ((self.0 >> 21u32) & 0b111) as u8
    }

    /// The castling rights before the move.
    pub fn castling_rights(&self) -> (rights: CastlingRights)
        ensures
            rights == self@.castling,
    {
        CastlingRights {
            white_queenside: ((self.0 >> 24u32) & 0b1) != 0,
            white_kingside: ((self.0 >> 25u32) & 0b1) != 0,
            black_queenside: ((self.0 >> 26u32) & 0b1) != 0,
            black_kingside: ((self.0 >> 27u32) & 0b1) != 0,
        }
    }

    /// Whether the move itself captures en passant.
    pub fn is_ep(&self) -> (flag: bool)
        ensures
            flag == self@.is_ep,
    {
        ((self.0 >> 28u32) & 0b1) != 0
    }

    /// Joins the low six bits of `square` to the square moved from.
    pub fn set_from_square(&mut self, square: usize)
        ensures
            final(self)@ == (MoveView {
                from_square: old(self)@.from_square | (#[verifier::truncate] (square as u32) & 0x3f),
                ..old(self)@
            }),
            old(self)@.from_square == 0 && square < 64 ==> final(self)@.from_square == square,
    {
        proof {
            bv_join_field(self.0, #[verifier::truncate] (square as u32), 0, 0x3f);
        }
        self.0 |= (#[verifier::truncate] (square as u32)) & 0b111111;
    }

    /// Joins the low six bits of `square` to the square moved to.
    pub fn set_to_square(&mut self, square: usize)
        ensures
            final(self)@ == (MoveView {
                to_square: old(self)@.to_square | (#[verifier::truncate] (square as u32) & 0x3f),
                ..old(self)@
            }),
            old(self)@.to_square == 0 && square < 64 ==> final(self)@.to_square == square,
    {
        proof {
            bv_join_field(self.0, #[verifier::truncate] (square as u32), 6, 0x3f);
        }
        self.0 |= ((#[verifier::truncate] (square as u32)) & 0b111111) << 6u32;
    }

    /// Joins the low three bits of `piece` to the moving piece.
    pub fn set_moving_piece(&mut self, piece: u8)
        ensures
            final(self)@ == (MoveView {
                moving_piece: old(self)@.moving_piece | (piece as u32 & 7),
                ..old(self)@
            }),
            old(self)@.moving_piece == 0 && piece <= 7 ==> final(self)@.moving_piece == piece,
    {
        proof {
            bv_join_field(self.0, piece as u32, 12, 7);
        }
        self.0 |= ((piece as u32) & 0b111) << 12u32;
    }

    /// Joins the low three bits of `piece` to the captured piece.
    pub fn set_captured_piece(&mut self, piece: u8)
        ensures
            final(self)@ == (MoveView {
                captured_piece: old(self)@.captured_piece | (piece as u32 & 7),
                ..old(self)@
            }),
            old(self)@.captured_piece == 0 && piece <= 7 ==> final(self)@.captured_piece == piece,
    {
        proof {
            bv_join_field(self.0, piece as u32, 15, 7);
        }
        self.0 |= ((piece as u32) & 0b111) << 15u32;
    }

    /// Joins the low two bits of `piece` to the promotion piece.
    pub fn set_promotion_piece(&mut self, piece: u8)
        ensures
            final(self)@ == (MoveView {
                promotion_piece: old(self)@.promotion_piece | (piece as u32 & 3),
                ..old(self)@
            }),
            old(self)@.promotion_piece == 0 && piece <= 3 ==> final(self)@.promotion_piece
                == piece,
    {
        proof {
            bv_join_field(self.0, piece as u32, 18, 3);
        }
        self.0 |= ((piece as u32) & 0b11) << 18u32;
    }

    /// Records the en-passant file before the move, if there was one.
    pub fn set_prev_ep(&mut self, ep: Option<u8>)
        ensures
            match ep {
                Some(file) => final(self)@ == (MoveView {
                    is_prev_ep: true,
                    prev_ep_file: old(self)@.prev_ep_file | (file as u32 & 7),
                    ..old(self)@
                }),
                None => final(self)@ == old(self)@,
            },
            ep matches Some(file) ==> (old(self)@.prev_ep_file == 0 && file <= 7
                ==> final(self)@.prev_ep_file == file),
    {
        if let Some(file) = ep {
            proof {
                bv_raise_flag(self.0, 20);
                bv_join_field(self.0 | (1u32 << 20u32), file as u32, 21, 7);
            }
            self.0 |= 1u32 << 20u32;
            self.0 |= ((file as u32) & 0b111) << 21u32;
        }
    }

    /// Records the castling rights before the move: raises the flag of
    /// each right that `rights` holds.
    pub fn set_castling_rights(&mut self, rights: CastlingRights)
        ensures
            final(self)@ == (MoveView {
                castling: CastlingRights {
                    white_queenside: old(self)@.castling.white_queenside || rights.white_queenside,
                    white_kingside: old(self)@.castling.white_kingside || rights.white_kingside,
                    black_queenside: old(self)@.castling.black_queenside || rights.black_queenside,
                    black_kingside: old(self)@.castling.black_kingside || rights.black_kingside,
                },
                ..old(self)@
            }),
    {
        if rights.white_queenside {
            proof {
                bv_raise_flag(self.0, 24);
            }
            self.0 |= 1u32 << 24u32;
        }
        if rights.white_kingside {
            proof {
                bv_raise_flag(self.0, 25);
            }
            self.0 |= 1u32 << 25u32;
        }
        if rights.black_queenside {
            proof {
                bv_raise_flag(self.0, 26);
            }
            self.0 |= 1u32 << 26u32;
        }
        if rights.black_kingside {
            proof {
                bv_raise_flag(self.0, 27);
            }
            self.0 |= 1u32 << 27u32;
        }
    }

    /// Marks the move as an en-passant capture.
    pub fn set_is_ep(&mut self)
        ensures
            final(self)@ == (MoveView { is_ep: true, ..old(self)@ }),
    {
        proof {
            bv_raise_flag(self.0, 28);
        }
        self.0 |= 1u32 << 28u32;
    }
}

/// `tinyvec::ArrayVec`: a vector on a fixed array, opaque to the verifier.
#[verifier::external_type_specification]
#[verifier::external_body]
#[verifier::reject_recursive_types(A)]
pub struct ExArrayVec<A>(tinyvec::ArrayVec<A>);

/// The number of moves that a list can hold.
pub const MOVES_CAPACITY: usize = 218;

/// A list of moves of bounded length, kept on the stack.
pub type Moves = tinyvec::ArrayVec<[Move; 218]>;

/// The moves that a list holds, first pushed first: what the `ArrayVec`
/// shows when it is read as a slice.
pub uninterp spec fn move_list(moves: Moves) -> Seq<Move>;

/// `ArrayVec::push` of tinyvec writes the value into the slot behind the
/// last element and lengthens the vector by one; it panics when no slot is
/// left, which for a list over an array of 218 is at length 218.
#[verifier::external_body]
pub(crate) fn push_move(moves: &mut Moves, mv: Move)
    requires
        move_list(*old(moves)).len() < MOVES_CAPACITY,
    ensures
        move_list(*final(moves)) == move_list(*old(moves)).push(mv),
{
    moves.push(mv)
}

/// `ArrayVec::new` of tinyvec makes a vector of length 0 on a default array.
#[verifier::external_body]
pub(crate) fn new_moves() -> (moves: Moves)
    ensures
        move_list(moves) == Seq::<Move>::empty(),
{
    Moves::new()
}

/// `ArrayVec::len` of tinyvec is the number of elements that the vector
/// shows as a slice.
#[verifier::external_body]
pub(crate) fn moves_len(moves: &Moves) -> (len: usize)
    ensures
        len == move_list(*moves).len(),
{
    moves.len()
}

/// Indexing an `ArrayVec` of tinyvec reads the element at that place of its
/// slice, and panics where the slice ends before it.
#[verifier::external_body]
pub(crate) fn move_at(moves: &Moves, i: usize) -> (mv: Move)
    requires
        i < move_list(*moves).len(),
    ensures
        mv == move_list(*moves)[i as int],
{
    moves[i]
}

/// `later` is `earlier` with moves appended whose records read `added`.
pub open spec fn extends(earlier: Seq<Move>, later: Seq<Move>, added: Seq<MoveView>) -> bool {
    &&& later.len() == earlier.len() + added.len()
    &&& forall|i: int| 0 <= i < earlier.len() ==> #[trigger] later[i] == earlier[i]
    &&& forall|i: int| 0 <= i < added.len() ==> (#[trigger] later[earlier.len() + i])@ == added[i]
}

/// Appending one move appends its record.
pub proof fn lemma_extends_push(
    start: Seq<Move>,
    earlier: Seq<Move>,
    later: Seq<Move>,
    so_far: Seq<MoveView>,
    mv: Move,
)
    requires
        extends(start, earlier, so_far),
        later == earlier.push(mv),
    ensures
        extends(start, later, so_far.push(mv@)),
{
    assert forall|i: int| 0 <= i < start.len() implies #[trigger] later[i] == start[i] by {
        assert(earlier[i] == start[i]);
    }
    assert forall|i: int| 0 <= i < so_far.push(mv@).len() implies (#[trigger] later[start.len()
        + i])@ == so_far.push(mv@)[i] by {
        if i < so_far.len() {
            assert(later[start.len() + i] == earlier[start.len() + i]);
        }
    }
}

/// Appending twice is appending the concatenation.
pub proof fn lemma_extends_twice(
    a: Seq<Move>,
    b: Seq<Move>,
    c: Seq<Move>,
    x: Seq<MoveView>,
    y: Seq<MoveView>,
)
    requires
        extends(a, b, x),
        extends(b, c, y),
    ensures
        extends(a, c, x + y),
{
    assert forall|i: int| 0 <= i < (x + y).len() implies (#[trigger] c[a.len() + i])@ == (x + y)[i] by {
        if i < x.len() {
            assert(c[a.len() + i] == b[a.len() + i]);
        } else {
            assert(c[a.len() + i] == c[b.len() + (i - x.len())]);
        }
    }
}

} // verus!
