use chess::moves::{
    BISHOP_PIECE_TYPE, KING_PIECE_TYPE, KNIGHT_PIECE_TYPE, PAWN_PIECE_TYPE, QUEEN_PIECE_TYPE,
    ROOK_PIECE_TYPE,
};
use chess::{BishopTable, Board, CastlingRights, Moves, RookTable, Side};

fn count(board: &mut Board, depth: u32) -> u64 {
    if depth == 0 {
        return 1;
    }
    let mut moves = Moves::new();
    board.generate_moves(&mut moves, board.side_to_move);
    if depth == 1 {
        return moves.len() as u64;
    }
    let mut nodes = 0;
    for mv in moves.iter() {
        board.make_move(*mv);
        nodes += count(board, depth - 1);
        board.unmake_move(*mv);
    }
    nodes
}

fn count_legal(board: &mut Board, depth: u32) -> u64 {
    if depth == 0 {
        return 1;
    }
    let mut moves = Moves::new();
    board.legal_moves(&mut moves);
    if depth == 1 {
        return moves.len() as u64;
    }
    let mut nodes = 0;
    for mv in moves.iter() {
        board.make_move(*mv);
        nodes += count_legal(board, depth - 1);
        board.unmake_move(*mv);
    }
    nodes
}

fn rights(white_kingside: bool, white_queenside: bool, black_kingside: bool, black_queenside: bool) -> CastlingRights {
    CastlingRights { white_kingside, white_queenside, black_kingside, black_queenside }
}

fn set_up(rows: [&str; 8], side: Side, castling: CastlingRights) -> Board {
    let mut board = Board::empty(RookTable::new().unwrap(), BishopTable::new().unwrap());
    for (i, row) in rows.iter().enumerate() {
        let rank = 7 - i;
        for (file, c) in row.chars().enumerate() {
            let kind = match c.to_ascii_lowercase() {
                'p' => PAWN_PIECE_TYPE,
                'n' => KNIGHT_PIECE_TYPE,
                'b' => BISHOP_PIECE_TYPE,
                'r' => ROOK_PIECE_TYPE,
                'q' => QUEEN_PIECE_TYPE,
                'k' => KING_PIECE_TYPE,
                _ => continue,
            };
            let owner = if c.is_ascii_uppercase() { Side::WHITE } else { Side::BLACK };
            assert!(board.place_piece(owner, kind, rank * 8 + file));
        }
    }
    assert!(board.set_state(side, None, castling));
    board
}

fn all_rights() -> CastlingRights {
    CastlingRights {
        white_kingside: true,
        white_queenside: true,
        black_kingside: true,
        black_queenside: true,
    }
}

#[test]
fn move_counts_from_the_start() {
    let mut board = Board::new(RookTable::new().unwrap(), BishopTable::new().unwrap());
    let pawns = board.pawns;
    assert_eq!(count(&mut board, 1), 20);
    assert_eq!(count(&mut board, 2), 400);
    // no check and no pin can arise within three plies of the start
    assert_eq!(count(&mut board, 3), 8902);
    assert_eq!(board.pawns, pawns);
    assert_eq!(board.side_to_move, Side::WHITE);
}

#[test]
fn move_count_of_a_middle_game() {
    let mut board = set_up(
        [
            "r...k..r",
            "p.ppqpb.",
            "bn..pnp.",
            "...PN...",
            ".p..P...",
            "..N..Q.p",
            "PPPBBPPP",
            "R...K..R",
        ],
        Side::WHITE,
        all_rights(),
    );
    // no white piece is pinned and the king is not in check
    assert_eq!(count(&mut board, 1), 48);
}

#[test]
fn set_up_matches_the_start() {
    let board = set_up(
        [
            "rnbqkbnr",
            "pppppppp",
            "........",
            "........",
            "........",
            "........",
            "PPPPPPPP",
            "RNBQKBNR",
        ],
        Side::WHITE,
        all_rights(),
    );
    let start = Board::new(RookTable::new().unwrap(), BishopTable::new().unwrap());
    assert_eq!(board.arr, start.arr);
    assert_eq!(board.pieces, start.pieces);
    assert_eq!(board.pawns, start.pawns);
    assert_eq!(board.kings, start.kings);
    assert_eq!(board.occupied, start.occupied);
    assert_eq!(board.empty, start.empty);
    assert_eq!(board.castling, start.castling);
}

#[test]
fn legal_move_counts_from_the_start() {
    let mut board = Board::new(RookTable::new().unwrap(), BishopTable::new().unwrap());
    let arr = board.arr;
    assert_eq!(count_legal(&mut board, 1), 20);
    assert_eq!(count_legal(&mut board, 2), 400);
    assert_eq!(count_legal(&mut board, 3), 8_902);
    assert_eq!(count_legal(&mut board, 4), 197_281);
    assert_eq!(board.arr, arr);
    assert_eq!(board.side_to_move, Side::WHITE);
}

#[test]
fn legal_move_counts_with_castling_and_pins() {
    let mut board = set_up(
        [
            "r...k..r",
            "p.ppqpb.",
            "bn..pnp.",
            "...PN...",
            ".p..P...",
            "..N..Q.p",
            "PPPBBPPP",
            "R...K..R",
        ],
        Side::WHITE,
        all_rights(),
    );
    assert_eq!(count_legal(&mut board, 1), 48);
    assert_eq!(count_legal(&mut board, 2), 2_039);
    assert_eq!(count_legal(&mut board, 3), 97_862);
}

#[test]
fn legal_move_counts_in_an_endgame_with_en_passant_pins() {
    let mut board = set_up(
        [
            "........",
            "..p.....",
            "...p....",
            "KP.....r",
            ".R...p.k",
            "........",
            "....P.P.",
            "........",
        ],
        Side::WHITE,
        rights(false, false, false, false),
    );
    assert_eq!(count_legal(&mut board, 1), 14);
    assert_eq!(count_legal(&mut board, 2), 191);
    assert_eq!(count_legal(&mut board, 3), 2_812);
    assert_eq!(count_legal(&mut board, 4), 43_238);
}

#[test]
fn legal_move_counts_with_promotions_and_checks() {
    let mut board = set_up(
        [
            "r...k..r",
            "Pppp.ppp",
            ".b...nbN",
            "nP......",
            "BBP.P...",
            "q....N..",
            "Pp.P..PP",
            "R..Q.RK.",
        ],
        Side::WHITE,
        rights(false, false, true, true),
    );
    assert_eq!(count_legal(&mut board, 1), 6);
    assert_eq!(count_legal(&mut board, 2), 264);
    assert_eq!(count_legal(&mut board, 3), 9_467);
}

#[test]
fn legal_move_counts_with_a_pawn_on_the_seventh() {
    let mut board = set_up(
        [
            "rnbq.k.r",
            "pp.Pbppp",
            "..p.....",
            "........",
            "..B.....",
            "........",
            "PPP.NnPP",
            "RNBQK..R",
        ],
        Side::WHITE,
        rights(true, true, false, false),
    );
    assert_eq!(count_legal(&mut board, 1), 44);
    assert_eq!(count_legal(&mut board, 2), 1_486);
    assert_eq!(count_legal(&mut board, 3), 62_379);
}

#[test]
fn legal_move_counts_in_a_quiet_middle_game() {
    let mut board = set_up(
        [
            "r....rk.",
            ".pp.qppp",
            "p.np.n..",
            "..b.p.B.",
            "..B.P.b.",
            "P.NP.N..",
            ".PP.QPPP",
            "R....RK.",
        ],
        Side::WHITE,
        rights(false, false, false, false),
    );
    assert_eq!(count_legal(&mut board, 1), 46);
    assert_eq!(count_legal(&mut board, 2), 2_079);
    assert_eq!(count_legal(&mut board, 3), 89_890);
}

#[test]
fn a_king_in_check_may_not_stay_in_it() {
    // the rook on a1 checks the king on e1 along the rank: stepping back to
    // f1 stays on the ray, and is generated but not legal
    let mut board = set_up(
        [
            ".......k",
            "........",
            "........",
            "........",
            "........",
            "........",
            "........",
            "r...K...",
        ],
        Side::WHITE,
        rights(false, false, false, false),
    );
    assert!(board.is_in_check(Side::WHITE));
    assert!(!board.is_in_check(Side::BLACK));
    let mut generated = Moves::new();
    board.generate_moves(&mut generated, Side::WHITE);
    let mut legal = Moves::new();
    board.legal_moves(&mut legal);
    let to = |list: &Moves| list.iter().map(|m| m.to_square()).collect::<Vec<usize>>();
    assert_eq!(to(&generated), vec![5, 11, 12, 13]);
    assert_eq!(to(&legal), vec![11, 12, 13]);
}

#[test]
fn a_pinned_piece_stays_on_the_ray() {
    // the knight on e2 shields the king on e1 from the rook on e8
    let mut board = set_up(
        [
            "....r..k",
            "........",
            "........",
            "........",
            "........",
            "........",
            "....N...",
            "....K...",
        ],
        Side::WHITE,
        rights(false, false, false, false),
    );
    let mut legal = Moves::new();
    board.legal_moves(&mut legal);
    assert!(legal.iter().all(|m| m.moving_piece() == KING_PIECE_TYPE));
    assert_eq!(legal.len(), 4);
    let mut generated = Moves::new();
    board.generate_moves(&mut generated, Side::WHITE);
    assert_eq!(generated.len(), 4 + 6);
}
