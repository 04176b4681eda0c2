use chess::{king_attack_table, knight_attack_table, pawn_attack_table, Side};

#[test]
fn knight_attacks_from_known_squares() {
    let t = knight_attack_table();
    assert_eq!(t[1], (1 << 16) | (1 << 18) | (1 << 11));
    assert_eq!(t[0], (1 << 17) | (1 << 10));
    assert_eq!(t[63], (1 << 46) | (1 << 53));
    assert_eq!(t[27].count_ones(), 8);
    assert_eq!(t[27], 0x0000_1422_0022_1400);
}

#[test]
fn king_attacks_from_known_squares() {
    let t = king_attack_table();
    assert_eq!(t[4], (1 << 3) | (1 << 5) | (1 << 11) | (1 << 12) | (1 << 13));
    assert_eq!(t[0], (1 << 1) | (1 << 8) | (1 << 9));
    assert_eq!(t[63], (1 << 62) | (1 << 55) | (1 << 54));
    assert_eq!(t[27], 0x0000_001C_141C_0000);
}

#[test]
fn pawn_attacks_from_known_squares() {
    let t = pawn_attack_table();
    let white = Side::WHITE.index();
    let black = Side::BLACK.index();
    assert_eq!(t[white][8], 1 << 17);
    assert_eq!(t[white][12], (1 << 19) | (1 << 21));
    assert_eq!(t[white][15], 1 << 22);
    assert_eq!(t[white][60], 0);
    assert_eq!(t[black][48], 1 << 41);
    assert_eq!(t[black][52], (1 << 43) | (1 << 45));
    assert_eq!(t[black][55], 1 << 46);
    assert_eq!(t[black][3], 0);
}

#[test]
fn leaper_tables_turn_with_the_board() {
    let knights = knight_attack_table();
    let kings = king_attack_table();
    let pawns = pawn_attack_table();
    for s in 0..64usize {
        assert_eq!(knights[63 - s], knights[s].reverse_bits());
        assert_eq!(kings[63 - s], kings[s].reverse_bits());
        assert_eq!(pawns[1][63 - s], pawns[0][s].reverse_bits());
        assert_eq!(pawns[0][63 - s], pawns[1][s].reverse_bits());
    }
}

#[test]
fn a_pawn_table_is_not_its_own_rotation() {
    let pawns = pawn_attack_table();
    assert_ne!(pawns[0][55], pawns[0][8].reverse_bits());
}

#[test]
fn leapers_never_wrap_around_the_edge() {
    let knights = knight_attack_table();
    let kings = king_attack_table();
    for s in 0..64usize {
        for t in 0..64usize {
            let dr = (s / 8).abs_diff(t / 8);
            let df = (s % 8).abs_diff(t % 8);
            let knight = (dr == 1 && df == 2) || (dr == 2 && df == 1);
            let king = s != t && dr <= 1 && df <= 1;
            assert_eq!((knights[s] >> t) & 1 == 1, knight);
            assert_eq!((kings[s] >> t) & 1 == 1, king);
        }
    }
}

#[test]
fn sides_negate() {
    assert_eq!(!Side::WHITE, Side::BLACK);
    assert_eq!(!Side::BLACK, Side::WHITE);
    assert_eq!(Side::WHITE.index(), 0);
    assert_eq!(Side::BLACK.index(), 1);
}
