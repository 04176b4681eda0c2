use chess::bits::{lsb1, pop_lsb, square_bit, test_bit};
use chess::{BishopTable, Board, RookTable, Side};

#[test]
fn lowest_member_is_found_and_taken() {
    assert_eq!(lsb1(0), 64);
    assert_eq!(lsb1(1), 0);
    assert_eq!(lsb1(0x8000_0000_0000_0000), 63);
    assert_eq!(lsb1(0b1011_0000), 4);
    let mut b = 0b1011_0000u64;
    assert_eq!(pop_lsb(&mut b), 4);
    assert_eq!(b, 0b1010_0000);
    assert_eq!(pop_lsb(&mut b), 5);
    assert_eq!(pop_lsb(&mut b), 7);
    assert_eq!(b, 0);
}

#[test]
fn single_squares_and_membership() {
    for sq in 0..64usize {
        assert_eq!(square_bit(sq), 1u64 << sq);
        assert!(test_bit(square_bit(sq), sq));
        assert!(!test_bit(!square_bit(sq), sq));
    }
    assert!(test_bit(0x0000_0000_0000_FF00, 12));
    assert!(!test_bit(0x0000_0000_0000_FF00, 16));
}

#[test]
fn bitboards_of_a_kind_are_read_by_number() {
    let b = Board::new(RookTable::new().unwrap(), BishopTable::new().unwrap());
    assert_eq!(b.kind_bb_of(1, Side::WHITE), 0xFF00);
    assert_eq!(b.kind_bb_of(2, Side::BLACK), 0x4200_0000_0000_0000);
    assert_eq!(b.kind_bb_of(3, Side::WHITE), 0x24);
    assert_eq!(b.kind_bb_of(4, Side::BLACK), 0x8100_0000_0000_0000);
    assert_eq!(b.kind_bb_of(5, Side::WHITE), 0x08);
    assert_eq!(b.kind_bb_of(6, Side::BLACK), 0x1000_0000_0000_0000);
}
