use chess::moves::{
    BISHOP_PIECE_TYPE, KING_PIECE_TYPE, KNIGHT_PIECE_TYPE, PAWN_PIECE_TYPE, PROMO_BISHOP,
    PROMO_KNIGHT, PROMO_QUEEN, PROMO_ROOK, QUEEN_PIECE_TYPE, ROOK_PIECE_TYPE,
};
use chess::{BishopTable, Board, CastlingRights, Move, Moves, RookTable, Side};

fn start() -> Board {
    Board::new(RookTable::new().unwrap(), BishopTable::new().unwrap())
}

fn bare() -> Board {
    Board::empty(RookTable::new().unwrap(), BishopTable::new().unwrap())
}

fn all_rights() -> CastlingRights {
    CastlingRights {
        white_kingside: true,
        white_queenside: true,
        black_kingside: true,
        black_queenside: true,
    }
}

fn no_rights() -> CastlingRights {
    CastlingRights {
        white_kingside: false,
        white_queenside: false,
        black_kingside: false,
        black_queenside: false,
    }
}

type Snapshot = ([[u64; 2]; 7], [u8; 64], u64, u64, Option<u8>, CastlingRights, Side);

fn snapshot(b: &Board) -> Snapshot {
    (
        [b.pawns, b.knights, b.bishops, b.rooks, b.queens, b.kings, b.pieces],
        b.arr,
        b.occupied,
        b.empty,
        b.ep,
        b.castling,
        b.side_to_move,
    )
}

fn consistent(b: &Board) {
    for c in 0..2 {
        assert_eq!(
            b.pieces[c],
            b.pawns[c] | b.knights[c] | b.bishops[c] | b.rooks[c] | b.queens[c] | b.kings[c]
        );
    }
    assert_eq!(b.pieces[0] & b.pieces[1], 0);
    assert_eq!(b.occupied, b.pieces[0] | b.pieces[1]);
    assert_eq!(b.empty, !b.occupied);
    let boards = [b.pawns, b.knights, b.bishops, b.rooks, b.queens, b.kings];
    for sq in 0..64usize {
        let mut kind = 0u8;
        let mut count = 0;
        for (k, pair) in boards.iter().enumerate() {
            if ((pair[0] | pair[1]) >> sq) & 1 == 1 {
                kind = k as u8 + 1;
                count += 1;
            }
        }
        assert!(count <= 1);
        assert_eq!(b.arr[sq], kind);
    }
}

fn pairs(moves: &Moves) -> Vec<(usize, usize)> {
    moves.iter().map(|m| (m.from_square(), m.to_square())).collect()
}

fn find(moves: &Moves, from: usize, to: usize, promotion: u8) -> Move {
    *moves
        .iter()
        .find(|m| m.from_square() == from && m.to_square() == to && m.promotion_piece() == promotion)
        .unwrap()
}

#[test]
fn start_position_is_set_up() {
    let b = start();
    assert_eq!(b.pawns, [0x0000_0000_0000_FF00, 0x00FF_0000_0000_0000]);
    assert_eq!(b.knights, [0x42, 0x4200_0000_0000_0000]);
    assert_eq!(b.bishops, [0x24, 0x2400_0000_0000_0000]);
    assert_eq!(b.rooks, [0x81, 0x8100_0000_0000_0000]);
    assert_eq!(b.queens, [0x08, 0x0800_0000_0000_0000]);
    assert_eq!(b.kings, [0x10, 0x1000_0000_0000_0000]);
    assert_eq!(b.pieces, [0xFFFF, 0xFFFF_0000_0000_0000]);
    assert_eq!(b.occupied, 0xFFFF_0000_0000_FFFF);
    assert_eq!(b.empty, 0x0000_FFFF_FFFF_0000);
    assert_eq!(&b.arr[0..8], &[4, 2, 3, 5, 6, 3, 2, 4]);
    assert_eq!(&b.arr[8..16], &[1; 8]);
    assert_eq!(&b.arr[16..48], &[0; 32]);
    assert_eq!(&b.arr[48..56], &[1; 8]);
    assert_eq!(&b.arr[56..64], &[4, 2, 3, 5, 6, 3, 2, 4]);
    assert_eq!(b.side_to_move, Side::WHITE);
    assert_eq!(b.ep, None);
    assert_eq!(b.castling, all_rights());
    consistent(&b);
}

#[test]
fn start_position_king_has_no_move() {
    let b = start();
    let mut moves = Moves::new();
    b.king_moves(&mut moves, Side::WHITE);
    assert_eq!(moves.len(), 0);
    b.king_moves(&mut moves, Side::BLACK);
    assert_eq!(moves.len(), 0);
}

#[test]
fn start_position_knights_have_four_moves() {
    let b = start();
    let mut moves = Moves::new();
    b.other_moves(&mut moves, Side::WHITE);
    let knights: Vec<(usize, usize)> = moves
        .iter()
        .filter(|m| m.moving_piece() == KNIGHT_PIECE_TYPE)
        .map(|m| (m.from_square(), m.to_square()))
        .collect();
    assert_eq!(knights, vec![(1, 16), (1, 18), (6, 21), (6, 23)]);
}

#[test]
fn start_position_has_twenty_moves_in_order() {
    let b = start();
    let mut moves = Moves::new();
    b.generate_moves(&mut moves, Side::WHITE);
    let mut expected = Vec::new();
    for file in 0..8usize {
        expected.push((8 + file, 16 + file));
        expected.push((8 + file, 24 + file));
    }
    expected.extend([(1, 16), (1, 18), (6, 21), (6, 23)]);
    assert_eq!(pairs(&moves), expected);
    for m in moves.iter() {
        assert_eq!(m.captured_piece(), 0);
        assert_eq!(m.promotion_piece(), 0);
        assert!(!m.is_prev_ep());
        assert!(!m.is_ep());
        assert_eq!(m.castling_rights(), all_rights());
    }
    let mut black = Moves::new();
    b.generate_moves(&mut black, Side::BLACK);
    assert_eq!(black.len(), 20);
}

#[test]
fn generation_appends_behind_what_the_list_holds() {
    let b = start();
    let mut moves = Moves::new();
    b.other_moves(&mut moves, Side::WHITE);
    let first = pairs(&moves);
    b.other_moves(&mut moves, Side::BLACK);
    assert_eq!(moves.len(), 40);
    assert_eq!(&pairs(&moves)[..20], &first[..]);
}

#[test]
fn start_position_attack_sets() {
    let b = start();
    assert_eq!(b.attacks(Side::WHITE), 0x0000_0000_00FF_FF7E);
    assert_eq!(b.attacks(Side::BLACK), 0x7EFF_FF00_0000_0000);
    assert_eq!(b.w_pawn_attacks(), 0x0000_0000_00FF_0000);
    assert_eq!(b.b_pawn_attacks(), 0x0000_FF00_0000_0000);
}

#[test]
fn attack_set_is_the_union_over_the_pieces() {
    let mut b = bare();
    assert!(b.place_piece(Side::WHITE, ROOK_PIECE_TYPE, 0));
    assert!(b.place_piece(Side::WHITE, BISHOP_PIECE_TYPE, 27));
    assert!(b.place_piece(Side::BLACK, PAWN_PIECE_TYPE, 45));
    assert!(b.place_piece(Side::BLACK, KING_PIECE_TYPE, 63));
    let rook = 0x0101_0101_0101_01FEu64;
    let bishop = (1u64 << 36)
        | (1 << 45)
        | (1 << 18)
        | (1 << 9)
        | (1 << 0)
        | (1 << 34)
        | (1 << 41)
        | (1 << 48)
        | (1 << 20)
        | (1 << 13)
        | (1 << 6);
    assert_eq!(b.attacks(Side::WHITE), rook | bishop);
    assert_eq!(b.kind_attacks(ROOK_PIECE_TYPE, Side::WHITE), rook);
    assert_eq!(b.kind_attacks(BISHOP_PIECE_TYPE, Side::WHITE), bishop);
    assert_eq!(b.kind_attacks(QUEEN_PIECE_TYPE, Side::WHITE), 0);
    let pawn = (1u64 << 36) | (1 << 38);
    let king = (1u64 << 62) | (1 << 55) | (1 << 54);
    assert_eq!(b.attacks(Side::BLACK), pawn | king);
    assert_eq!(b.piece_attacks(QUEEN_PIECE_TYPE, Side::WHITE, 27), {
        let r = b.rook_table.lookup(27, b.occupied);
        r | bishop
    });
}

#[test]
fn king_stays_off_attacked_squares() {
    let mut b = bare();
    assert!(b.place_piece(Side::WHITE, KING_PIECE_TYPE, 4));
    assert!(b.place_piece(Side::BLACK, ROOK_PIECE_TYPE, 60));
    assert!(b.place_piece(Side::BLACK, KING_PIECE_TYPE, 56));
    let mut moves = Moves::new();
    b.king_moves(&mut moves, Side::WHITE);
    assert_eq!(pairs(&moves), vec![(4, 3), (4, 5), (4, 11), (4, 13)]);
    let attacked = b.attacks(Side::BLACK);
    for m in moves.iter() {
        assert_eq!((attacked >> m.to_square()) & 1, 0);
        assert_eq!(m.moving_piece(), KING_PIECE_TYPE);
    }
}

#[test]
fn king_may_step_back_along_the_ray_that_it_blocks() {
    // the rook's ray ends on the king, so the square behind the king is not
    // in the attack set of the position as it stands
    let mut b = bare();
    assert!(b.place_piece(Side::WHITE, KING_PIECE_TYPE, 4));
    assert!(b.place_piece(Side::BLACK, ROOK_PIECE_TYPE, 0));
    assert!(b.place_piece(Side::BLACK, KING_PIECE_TYPE, 63));
    let attacked = b.attacks(Side::BLACK);
    assert_eq!((attacked >> 3) & 1, 1);
    assert_eq!((attacked >> 4) & 1, 1);
    assert_eq!((attacked >> 5) & 1, 0);
    let mut moves = Moves::new();
    b.king_moves(&mut moves, Side::WHITE);
    assert_eq!(pairs(&moves), vec![(4, 5), (4, 11), (4, 12), (4, 13)]);
}

#[test]
fn king_takes_an_unguarded_piece_and_leaves_a_guarded_one() {
    let mut b = bare();
    assert!(b.place_piece(Side::WHITE, KING_PIECE_TYPE, 27));
    assert!(b.place_piece(Side::BLACK, KNIGHT_PIECE_TYPE, 18));
    assert!(b.place_piece(Side::BLACK, PAWN_PIECE_TYPE, 35));
    assert!(b.place_piece(Side::BLACK, PAWN_PIECE_TYPE, 44));
    assert!(b.place_piece(Side::BLACK, KING_PIECE_TYPE, 63));
    let mut moves = Moves::new();
    b.king_moves(&mut moves, Side::WHITE);
    // d5 (35) is guarded by the pawn on e6 (44); c3 (18) is not guarded
    let taken: Vec<(usize, u8)> = moves
        .iter()
        .filter(|m| m.captured_piece() != 0)
        .map(|m| (m.to_square(), m.captured_piece()))
        .collect();
    assert_eq!(taken, vec![(18, KNIGHT_PIECE_TYPE)]);
    // c4 and e4 are attacked by the pawn on d5, e4 by the knight too
    assert_eq!(pairs(&moves), vec![(27, 18), (27, 19), (27, 20), (27, 34), (27, 36)]);
}

#[test]
fn own_pieces_are_no_targets() {
    let mut b = bare();
    assert!(b.place_piece(Side::WHITE, QUEEN_PIECE_TYPE, 0));
    assert!(b.place_piece(Side::WHITE, PAWN_PIECE_TYPE, 9));
    assert!(b.place_piece(Side::WHITE, KING_PIECE_TYPE, 1));
    assert!(b.place_piece(Side::BLACK, ROOK_PIECE_TYPE, 24));
    let mut moves = Moves::new();
    b.other_moves(&mut moves, Side::WHITE);
    let queen: Vec<(usize, usize, u8)> = moves
        .iter()
        .filter(|m| m.moving_piece() == QUEEN_PIECE_TYPE)
        .map(|m| (m.from_square(), m.to_square(), m.captured_piece()))
        .collect();
    assert_eq!(queen, vec![(0, 8, 0), (0, 16, 0), (0, 24, ROOK_PIECE_TYPE)]);
}

#[test]
fn placing_refuses_what_does_not_fit() {
    let mut b = bare();
    assert!(!b.place_piece(Side::WHITE, 0, 10));
    assert!(!b.place_piece(Side::WHITE, 7, 10));
    assert!(!b.place_piece(Side::WHITE, PAWN_PIECE_TYPE, 64));
    assert!(b.place_piece(Side::WHITE, PAWN_PIECE_TYPE, 10));
    let before = snapshot(&b);
    assert!(!b.place_piece(Side::BLACK, QUEEN_PIECE_TYPE, 10));
    assert!(!b.place_piece(Side::WHITE, PAWN_PIECE_TYPE, 10));
    assert_eq!(snapshot(&b), before);
    assert_eq!(b.pawns, [1 << 10, 0]);
    assert_eq!(b.arr[10], PAWN_PIECE_TYPE);
    consistent(&b);
}

#[test]
fn state_is_set_or_refused() {
    let mut b = bare();
    assert_eq!(b.castling, no_rights());
    assert!(!b.set_state(Side::BLACK, Some(8), all_rights()));
    assert_eq!(b.side_to_move, Side::WHITE);
    assert_eq!(b.ep, None);
    assert_eq!(b.castling, no_rights());
    assert!(b.set_state(Side::BLACK, Some(7), all_rights()));
    assert_eq!(b.side_to_move, Side::BLACK);
    assert_eq!(b.ep, Some(7));
    assert_eq!(b.castling, all_rights());
}

#[test]
fn every_generated_move_is_taken_back_exactly() {
    let mut b = start();
    for _ply in 0..6 {
        let mut moves = Moves::new();
        b.generate_moves(&mut moves, b.side_to_move);
        assert!(moves.len() > 0);
        let before = snapshot(&b);
        for mv in moves.iter() {
            b.make_move(*mv);
            consistent(&b);
            assert_ne!(snapshot(&b), before);
            b.unmake_move(*mv);
            assert_eq!(snapshot(&b), before);
        }
        let pick = moves[(moves.len() * 2) / 3];
        b.make_move(pick);
    }
}

#[test]
fn double_push_opens_the_file_for_en_passant() {
    let mut b = start();
    let mut moves = Moves::new();
    b.generate_moves(&mut moves, Side::WHITE);
    let e2e4 = find(&moves, 12, 28, 0);
    b.make_move(e2e4);
    assert_eq!(b.ep, Some(4));
    assert_eq!(b.side_to_move, Side::BLACK);
    assert_eq!(b.arr[12], 0);
    assert_eq!(b.arr[28], PAWN_PIECE_TYPE);
    assert_eq!(b.pawns[0], 0x0000_0000_1000_EF00);
    assert_eq!(b.castling, all_rights());
    let mut replies = Moves::new();
    b.generate_moves(&mut replies, Side::BLACK);
    assert_eq!(replies.len(), 20);
    let a7a6 = find(&replies, 48, 40, 0);
    assert!(a7a6.is_prev_ep());
    assert_eq!(a7a6.prev_ep_file(), 4);
    b.make_move(a7a6);
    assert_eq!(b.ep, None);
    b.unmake_move(a7a6);
    assert_eq!(b.ep, Some(4));
    b.unmake_move(e2e4);
    assert_eq!(snapshot(&b), snapshot(&start()));
}

#[test]
fn en_passant_takes_the_pawn_beside() {
    let mut b = bare();
    assert!(b.place_piece(Side::WHITE, KING_PIECE_TYPE, 4));
    assert!(b.place_piece(Side::BLACK, KING_PIECE_TYPE, 60));
    assert!(b.place_piece(Side::WHITE, PAWN_PIECE_TYPE, 36));
    assert!(b.place_piece(Side::BLACK, PAWN_PIECE_TYPE, 35));
    assert!(b.set_state(Side::WHITE, Some(3), no_rights()));
    let before = snapshot(&b);
    let mut moves = Moves::new();
    b.other_moves(&mut moves, Side::WHITE);
    assert_eq!(pairs(&moves), vec![(36, 43), (36, 44)]);
    let take = moves[0];
    assert!(take.is_ep());
    assert_eq!(take.captured_piece(), PAWN_PIECE_TYPE);
    assert!(!moves[1].is_ep());
    b.make_move(take);
    assert_eq!(b.arr[35], 0);
    assert_eq!(b.arr[36], 0);
    assert_eq!(b.arr[43], PAWN_PIECE_TYPE);
    assert_eq!(b.pawns, [1 << 43, 0]);
    assert_eq!(b.ep, None);
    consistent(&b);
    b.unmake_move(take);
    assert_eq!(snapshot(&b), before);
}

#[test]
fn en_passant_needs_the_file_and_the_pawn() {
    let mut b = bare();
    assert!(b.place_piece(Side::WHITE, PAWN_PIECE_TYPE, 36));
    assert!(b.place_piece(Side::BLACK, PAWN_PIECE_TYPE, 35));
    let mut moves = Moves::new();
    b.other_moves(&mut moves, Side::WHITE);
    assert_eq!(pairs(&moves), vec![(36, 44)]);
    // the file is open but no pawn stands beside
    let mut b = bare();
    assert!(b.place_piece(Side::WHITE, PAWN_PIECE_TYPE, 36));
    assert!(b.set_state(Side::WHITE, Some(3), no_rights()));
    let mut moves = Moves::new();
    b.other_moves(&mut moves, Side::WHITE);
    assert_eq!(pairs(&moves), vec![(36, 44)]);
    // black takes downwards
    let mut b = bare();
    assert!(b.place_piece(Side::BLACK, PAWN_PIECE_TYPE, 27));
    assert!(b.place_piece(Side::WHITE, PAWN_PIECE_TYPE, 28));
    assert!(b.set_state(Side::BLACK, Some(4), no_rights()));
    let mut moves = Moves::new();
    b.other_moves(&mut moves, Side::BLACK);
    assert_eq!(pairs(&moves), vec![(27, 19), (27, 20)]);
    assert!(moves[1].is_ep());
}

#[test]
fn pawn_promotes_to_each_of_four() {
    let mut b = bare();
    assert!(b.place_piece(Side::WHITE, PAWN_PIECE_TYPE, 48));
    assert!(b.place_piece(Side::BLACK, ROOK_PIECE_TYPE, 57));
    assert!(b.place_piece(Side::WHITE, KING_PIECE_TYPE, 4));
    assert!(b.place_piece(Side::BLACK, KING_PIECE_TYPE, 63));
    let before = snapshot(&b);
    let mut moves = Moves::new();
    b.other_moves(&mut moves, Side::WHITE);
    let listed: Vec<(usize, usize, u8, u8)> = moves
        .iter()
        .map(|m| (m.from_square(), m.to_square(), m.promotion_piece(), m.captured_piece()))
        .collect();
    assert_eq!(
        listed,
        vec![
            (48, 56, PROMO_KNIGHT, 0),
            (48, 56, PROMO_BISHOP, 0),
            (48, 56, PROMO_ROOK, 0),
            (48, 56, PROMO_QUEEN, 0),
            (48, 57, PROMO_KNIGHT, ROOK_PIECE_TYPE),
            (48, 57, PROMO_BISHOP, ROOK_PIECE_TYPE),
            (48, 57, PROMO_ROOK, ROOK_PIECE_TYPE),
            (48, 57, PROMO_QUEEN, ROOK_PIECE_TYPE),
        ]
    );
    let kinds = [KNIGHT_PIECE_TYPE, BISHOP_PIECE_TYPE, ROOK_PIECE_TYPE, QUEEN_PIECE_TYPE];
    for mv in moves.iter() {
        b.make_move(*mv);
        assert_eq!(b.arr[mv.to_square()], kinds[mv.promotion_piece() as usize]);
        assert_eq!(b.arr[48], 0);
        assert_eq!(b.pawns, [0, 0]);
        consistent(&b);
        b.unmake_move(*mv);
        assert_eq!(snapshot(&b), before);
    }
}

#[test]
fn pawns_are_blocked_by_what_stands_ahead() {
    let mut b = bare();
    assert!(b.place_piece(Side::WHITE, PAWN_PIECE_TYPE, 8));
    assert!(b.place_piece(Side::BLACK, KNIGHT_PIECE_TYPE, 16));
    assert!(b.place_piece(Side::WHITE, PAWN_PIECE_TYPE, 9));
    assert!(b.place_piece(Side::BLACK, KNIGHT_PIECE_TYPE, 25));
    assert!(b.place_piece(Side::WHITE, PAWN_PIECE_TYPE, 63));
    let mut moves = Moves::new();
    b.other_moves(&mut moves, Side::WHITE);
    assert_eq!(pairs(&moves), vec![(9, 16), (9, 17)]);
    assert_eq!(moves[0].captured_piece(), KNIGHT_PIECE_TYPE);
}

#[test]
fn castling_rights_end_with_king_and_rook_moves() {
    let mut b = bare();
    assert!(b.place_piece(Side::WHITE, KING_PIECE_TYPE, 4));
    assert!(b.place_piece(Side::WHITE, ROOK_PIECE_TYPE, 0));
    assert!(b.place_piece(Side::WHITE, ROOK_PIECE_TYPE, 7));
    assert!(b.place_piece(Side::BLACK, KING_PIECE_TYPE, 60));
    assert!(b.place_piece(Side::BLACK, ROOK_PIECE_TYPE, 63));
    assert!(b.set_state(Side::WHITE, None, all_rights()));
    let before = snapshot(&b);
    let mut moves = Moves::new();
    b.generate_moves(&mut moves, Side::WHITE);
    let rook_a = find(&moves, 0, 8, 0);
    b.make_move(rook_a);
    assert_eq!(b.castling, CastlingRights { white_queenside: false, ..all_rights() });
    b.unmake_move(rook_a);
    assert_eq!(snapshot(&b), before);
    let king = find(&moves, 4, 12, 0);
    b.make_move(king);
    assert_eq!(
        b.castling,
        CastlingRights { white_queenside: false, white_kingside: false, ..all_rights() }
    );
    b.unmake_move(king);
    assert_eq!(snapshot(&b), before);
    let takes_h8 = find(&moves, 7, 63, 0);
    assert_eq!(takes_h8.captured_piece(), ROOK_PIECE_TYPE);
    b.make_move(takes_h8);
    assert_eq!(
        b.castling,
        CastlingRights { white_kingside: false, black_kingside: false, ..all_rights() }
    );
    assert_eq!(b.rooks, [(1 << 0) | (1 << 63), 0]);
    b.unmake_move(takes_h8);
    assert_eq!(snapshot(&b), before);
}

fn castling_setup() -> Board {
    let mut b = bare();
    assert!(b.place_piece(Side::WHITE, KING_PIECE_TYPE, 4));
    assert!(b.place_piece(Side::WHITE, ROOK_PIECE_TYPE, 0));
    assert!(b.place_piece(Side::WHITE, ROOK_PIECE_TYPE, 7));
    assert!(b.place_piece(Side::BLACK, KING_PIECE_TYPE, 60));
    assert!(b.place_piece(Side::BLACK, ROOK_PIECE_TYPE, 56));
    assert!(b.place_piece(Side::BLACK, ROOK_PIECE_TYPE, 63));
    assert!(b.set_state(Side::WHITE, None, all_rights()));
    b
}

#[test]
fn castling_goes_to_both_sides() {
    let b = castling_setup();
    let mut moves = Moves::new();
    b.castling_moves(&mut moves, Side::WHITE);
    assert_eq!(pairs(&moves), vec![(4, 6), (4, 2)]);
    for m in moves.iter() {
        assert_eq!(m.moving_piece(), KING_PIECE_TYPE);
        assert_eq!(m.captured_piece(), 0);
        assert_eq!(m.castling_rights(), all_rights());
        assert!(!m.is_ep());
    }
    let mut black = Moves::new();
    b.castling_moves(&mut black, Side::BLACK);
    assert_eq!(pairs(&black), vec![(60, 62), (60, 58)]);
}

#[test]
fn castling_brings_the_rook_round_and_back() {
    let mut b = castling_setup();
    let before = snapshot(&b);
    let mut moves = Moves::new();
    b.generate_moves(&mut moves, Side::WHITE);
    let short = find(&moves, 4, 6, 0);
    b.make_move(short);
    assert_eq!(b.kings[0], 1 << 6);
    assert_eq!(b.rooks[0], (1 << 0) | (1 << 5));
    assert_eq!(b.arr[4], 0);
    assert_eq!(b.arr[7], 0);
    assert_eq!(b.arr[5], ROOK_PIECE_TYPE);
    assert_eq!(b.arr[6], KING_PIECE_TYPE);
    assert_eq!(
        b.castling,
        CastlingRights { white_kingside: false, white_queenside: false, ..all_rights() }
    );
    assert_eq!(b.side_to_move, Side::BLACK);
    consistent(&b);
    b.unmake_move(short);
    assert_eq!(snapshot(&b), before);
    let long = find(&moves, 4, 2, 0);
    b.make_move(long);
    assert_eq!(b.kings[0], 1 << 2);
    assert_eq!(b.rooks[0], (1 << 3) | (1 << 7));
    consistent(&b);
    let mut replies = Moves::new();
    b.generate_moves(&mut replies, Side::BLACK);
    // the rook on d1 now hits d8, so Black may castle short only
    assert!(replies.iter().all(|m| (m.from_square(), m.to_square()) != (60, 58)));
    let black_short = find(&replies, 60, 62, 0);
    b.make_move(black_short);
    assert_eq!(b.kings[1], 1 << 62);
    assert_eq!(b.rooks[1], (1 << 56) | (1 << 61));
    assert_eq!(b.castling, no_rights());
    consistent(&b);
    b.unmake_move(black_short);
    b.unmake_move(long);
    assert_eq!(snapshot(&b), before);
}

#[test]
fn castling_needs_right_rook_room_and_safety() {
    // no right
    let mut b = castling_setup();
    assert!(b.set_state(Side::WHITE, None, CastlingRights { white_kingside: false, ..all_rights() }));
    let mut moves = Moves::new();
    b.castling_moves(&mut moves, Side::WHITE);
    assert_eq!(pairs(&moves), vec![(4, 2)]);
    // a piece stands between, on b1
    let mut b = castling_setup();
    assert!(b.place_piece(Side::WHITE, KNIGHT_PIECE_TYPE, 1));
    let mut moves = Moves::new();
    b.castling_moves(&mut moves, Side::WHITE);
    assert_eq!(pairs(&moves), vec![(4, 6)]);
    // the square that the king crosses is attacked: a rook on f5 hits f1
    let mut b = castling_setup();
    assert!(b.place_piece(Side::BLACK, ROOK_PIECE_TYPE, 37));
    let mut moves = Moves::new();
    b.castling_moves(&mut moves, Side::WHITE);
    assert_eq!(pairs(&moves), vec![(4, 2)]);
    // b1 may be attacked: the king does not go over it
    let mut b = castling_setup();
    assert!(b.place_piece(Side::BLACK, ROOK_PIECE_TYPE, 33));
    let mut moves = Moves::new();
    b.castling_moves(&mut moves, Side::WHITE);
    assert_eq!(pairs(&moves), vec![(4, 6), (4, 2)]);
    // the king is in check
    let mut b = castling_setup();
    assert!(b.place_piece(Side::BLACK, ROOK_PIECE_TYPE, 36));
    let mut moves = Moves::new();
    b.castling_moves(&mut moves, Side::WHITE);
    assert_eq!(moves.len(), 0);
    // the rook in the corner belongs to the other side
    let mut b = bare();
    assert!(b.place_piece(Side::WHITE, KING_PIECE_TYPE, 4));
    assert!(b.place_piece(Side::BLACK, ROOK_PIECE_TYPE, 7));
    assert!(b.place_piece(Side::WHITE, BISHOP_PIECE_TYPE, 0));
    assert!(b.set_state(Side::WHITE, None, all_rights()));
    let mut moves = Moves::new();
    b.castling_moves(&mut moves, Side::WHITE);
    assert_eq!(moves.len(), 0);
}

#[test]
fn generated_moves_come_king_first_then_castling_then_the_others() {
    let b = castling_setup();
    let mut moves = Moves::new();
    b.generate_moves(&mut moves, Side::WHITE);
    let kinds: Vec<u8> = moves.iter().map(|m| m.moving_piece()).collect();
    let steps = pairs(&moves);
    assert_eq!(&steps[..5], &[(4, 3), (4, 5), (4, 11), (4, 12), (4, 13)]);
    assert_eq!(&steps[5..7], &[(4, 6), (4, 2)]);
    assert!(kinds[..7].iter().all(|k| *k == KING_PIECE_TYPE));
    assert!(kinds[7..].iter().all(|k| *k == ROOK_PIECE_TYPE));
    assert_eq!(moves.len(), 7 + 10 + 9);
    let mut again = Moves::new();
    b.king_moves(&mut again, Side::WHITE);
    b.castling_moves(&mut again, Side::WHITE);
    b.other_moves(&mut again, Side::WHITE);
    assert_eq!(pairs(&again), steps);
}
