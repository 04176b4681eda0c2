use chess::moves::{
    KING_PIECE_TYPE, KNIGHT_PIECE_TYPE, NONE_PIECE_TYPE, PAWN_PIECE_TYPE, PROMO_QUEEN,
    QUEEN_PIECE_TYPE, ROOK_PIECE_TYPE,
};
use chess::{CastlingRights, Move};

fn no_rights() -> CastlingRights {
    CastlingRights {
        white_kingside: false,
        white_queenside: false,
        black_kingside: false,
        black_queenside: false,
    }
}

#[test]
fn a_new_move_is_blank() {
    let mv = Move::new();
    assert_eq!(mv.from_square(), 0);
    assert_eq!(mv.to_square(), 0);
    assert_eq!(mv.moving_piece(), NONE_PIECE_TYPE);
    assert_eq!(mv.captured_piece(), NONE_PIECE_TYPE);
    assert_eq!(mv.promotion_piece(), 0);
    assert!(!mv.is_prev_ep());
    assert_eq!(mv.prev_ep_file(), 0);
    assert_eq!(mv.castling_rights(), no_rights());
    assert!(!mv.is_ep());
    assert_eq!(mv, Move::default());
}

#[test]
fn every_field_reads_back_what_was_set() {
    let mut mv = Move::new();
    mv.set_from_square(52);
    mv.set_to_square(61);
    mv.set_moving_piece(PAWN_PIECE_TYPE);
    mv.set_captured_piece(ROOK_PIECE_TYPE);
    mv.set_promotion_piece(PROMO_QUEEN);
    mv.set_prev_ep(Some(5));
    let rights = CastlingRights {
        white_kingside: true,
        white_queenside: false,
        black_kingside: false,
        black_queenside: true,
    };
    mv.set_castling_rights(rights);
    mv.set_is_ep();
    assert_eq!(mv.from_square(), 52);
    assert_eq!(mv.to_square(), 61);
    assert_eq!(mv.moving_piece(), PAWN_PIECE_TYPE);
    assert_eq!(mv.captured_piece(), ROOK_PIECE_TYPE);
    assert_eq!(mv.promotion_piece(), PROMO_QUEEN);
    assert!(mv.is_prev_ep());
    assert_eq!(mv.prev_ep_file(), 5);
    assert_eq!(mv.castling_rights(), rights);
    assert!(mv.is_ep());
}

#[test]
fn setting_one_field_leaves_the_others() {
    let mut mv = Move::new();
    mv.set_to_square(63);
    assert_eq!(mv.from_square(), 0);
    assert_eq!(mv.moving_piece(), 0);
    mv.set_moving_piece(KING_PIECE_TYPE);
    assert_eq!(mv.to_square(), 63);
    assert_eq!(mv.captured_piece(), 0);
    mv.set_captured_piece(QUEEN_PIECE_TYPE);
    assert_eq!(mv.moving_piece(), KING_PIECE_TYPE);
    assert_eq!(mv.promotion_piece(), 0);
    mv.set_promotion_piece(3);
    assert_eq!(mv.captured_piece(), QUEEN_PIECE_TYPE);
    assert!(!mv.is_prev_ep());
    mv.set_prev_ep(Some(7));
    assert_eq!(mv.promotion_piece(), 3);
    assert_eq!(mv.castling_rights(), no_rights());
    assert!(!mv.is_ep());
}

#[test]
fn setters_truncate_to_the_width_of_the_field() {
    let mut mv = Move::new();
    mv.set_from_square(64 + 5);
    assert_eq!(mv.from_square(), 5);
    assert_eq!(mv.to_square(), 0);
    let mut mv = Move::new();
    mv.set_moving_piece(8 + KNIGHT_PIECE_TYPE);
    assert_eq!(mv.moving_piece(), KNIGHT_PIECE_TYPE);
    assert_eq!(mv.captured_piece(), 0);
    let mut mv = Move::new();
    mv.set_promotion_piece(4 + 1);
    assert_eq!(mv.promotion_piece(), 1);
    assert!(!mv.is_prev_ep());
    let mut mv = Move::new();
    mv.set_prev_ep(Some(8 + 2));
    assert_eq!(mv.prev_ep_file(), 2);
    assert_eq!(mv.castling_rights(), no_rights());
}

#[test]
fn setters_join_their_argument_to_the_field() {
    let mut mv = Move::new();
    mv.set_from_square(0b000101);
    mv.set_from_square(0b010001);
    assert_eq!(mv.from_square(), 0b010101);
    mv.set_moving_piece(1);
    mv.set_moving_piece(4);
    assert_eq!(mv.moving_piece(), 5);
}

#[test]
fn absent_en_passant_sets_nothing() {
    let mut mv = Move::new();
    mv.set_prev_ep(None);
    assert!(!mv.is_prev_ep());
    assert_eq!(mv.prev_ep_file(), 0);
    assert_eq!(mv, Move::new());
}

#[test]
fn castling_rights_are_kept_one_by_one() {
    for bits in 0..16u8 {
        let rights = CastlingRights {
            white_queenside: bits & 1 != 0,
            white_kingside: bits & 2 != 0,
            black_queenside: bits & 4 != 0,
            black_kingside: bits & 8 != 0,
        };
        let mut mv = Move::new();
        mv.set_castling_rights(rights);
        assert_eq!(mv.castling_rights(), rights);
        assert!(!mv.is_ep());
        assert_eq!(mv.prev_ep_file(), 0);
    }
}

fn packed(build: impl Fn(&mut Move)) -> String {
    let mut mv = Move::new();
    build(&mut mv);
    format!("{:?}", mv)
}

#[test]
fn fields_are_packed_at_their_places() {
    assert_eq!(packed(|_| {}), "Move(0)");
    assert_eq!(packed(|m| m.set_from_square(1)), format!("Move({})", 1u32));
    assert_eq!(packed(|m| m.set_from_square(63)), format!("Move({})", 63u32));
    assert_eq!(packed(|m| m.set_to_square(1)), format!("Move({})", 1u32 << 6));
    assert_eq!(packed(|m| m.set_to_square(63)), format!("Move({})", 63u32 << 6));
    assert_eq!(packed(|m| m.set_moving_piece(1)), format!("Move({})", 1u32 << 12));
    assert_eq!(packed(|m| m.set_moving_piece(6)), format!("Move({})", 6u32 << 12));
    assert_eq!(packed(|m| m.set_captured_piece(1)), format!("Move({})", 1u32 << 15));
    assert_eq!(packed(|m| m.set_captured_piece(5)), format!("Move({})", 5u32 << 15));
    assert_eq!(packed(|m| m.set_promotion_piece(1)), format!("Move({})", 1u32 << 18));
    assert_eq!(packed(|m| m.set_promotion_piece(3)), format!("Move({})", 3u32 << 18));
    assert_eq!(packed(|m| m.set_prev_ep(Some(0))), format!("Move({})", 1u32 << 20));
    assert_eq!(packed(|m| m.set_prev_ep(Some(7))), format!("Move({})", (1u32 << 20) | (7 << 21)));
    assert_eq!(packed(|m| m.set_is_ep()), format!("Move({})", 1u32 << 28));
    let one = |white_queenside, white_kingside, black_queenside, black_kingside| CastlingRights {
        white_queenside,
        white_kingside,
        black_queenside,
        black_kingside,
    };
    assert_eq!(
        packed(|m| m.set_castling_rights(one(true, false, false, false))),
        format!("Move({})", 1u32 << 24)
    );
    assert_eq!(
        packed(|m| m.set_castling_rights(one(false, true, false, false))),
        format!("Move({})", 1u32 << 25)
    );
    assert_eq!(
        packed(|m| m.set_castling_rights(one(false, false, true, false))),
        format!("Move({})", 1u32 << 26)
    );
    assert_eq!(
        packed(|m| m.set_castling_rights(one(false, false, false, true))),
        format!("Move({})", 1u32 << 27)
    );
}
