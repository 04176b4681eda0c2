use chess::magic::{accept_magic, common_bits, find_magic};
use chess::sliding_attacks::{
    gen_empty_slide_bishop_inner, gen_empty_slide_rook_inner, gen_slide_bishop, gen_slide_rook,
};
use chess::subsets::gen_subsets;
use chess::{BishopTable, PieceType, RookTable};

fn bb(squares: &[u32]) -> u64 {
    let mut b = 0u64;
    for s in squares {
        b |= 1u64 << s;
    }
    b
}

fn index(occ: u64, magic: u64, mask: u64) -> usize {
    (occ.wrapping_mul(magic) >> (64 - mask.count_ones())) as usize
}

#[test]
fn rook_on_a4_traced_over_five_blockers() {
    let blockers = bb(&[5, 9, 10, 4, 12]);
    assert_eq!(gen_slide_rook(24, blockers), 0x0101_0101_FE01_0101);
}

#[test]
fn rook_on_a4_looked_up_over_five_blockers() {
    let table = RookTable::new().unwrap();
    let blockers = bb(&[5, 9, 10, 4, 12]);
    assert_eq!(table.lookup(24, blockers), 0x0101_0101_FE01_0101);
}

#[test]
fn rook_ray_stops_on_first_blocker_inclusive() {
    // rook d4 (27); blockers d6 (43), b4 (25), d2 (11), g4 (30), and d7 (51) behind d6
    let blockers = bb(&[43, 25, 11, 30, 51]);
    let expected = bb(&[35, 43, 19, 11, 26, 25, 28, 29, 30]);
    assert_eq!(gen_slide_rook(27, blockers), expected);
}

#[test]
fn bishop_ray_stops_on_first_blocker_inclusive() {
    // bishop d4 (27); blockers f6 (45), b2 (9), behind them g7 (54) and a1 (0)
    let blockers = bb(&[45, 9, 54, 0]);
    let expected = bb(&[36, 45, 18, 9, 34, 41, 48, 20, 13, 6]);
    assert_eq!(gen_slide_bishop(27, blockers), expected);
}

#[test]
fn rook_on_empty_board_from_corner() {
    assert_eq!(gen_slide_rook(0, 0), 0x0101_0101_0101_01FE);
    assert_eq!(gen_slide_bishop(0, 0), 0x8040_2010_0804_0200);
}

#[test]
fn relevant_masks_leave_out_the_edges() {
    assert_eq!(gen_empty_slide_rook_inner(0), 0x0001_0101_0101_017E);
    assert_eq!(gen_empty_slide_bishop_inner(0), 0x0040_2010_0804_0200);
    assert_eq!(gen_empty_slide_rook_inner(27), 0x0008_0808_7608_0800);
    assert_eq!(gen_empty_slide_bishop_inner(27), 0x0040_2214_0014_2200);
}

#[test]
fn relevant_mask_sizes() {
    for s in 0..64usize {
        let r = gen_empty_slide_rook_inner(s).count_ones();
        let b = gen_empty_slide_bishop_inner(s).count_ones();
        assert!((10..=12).contains(&r));
        assert!((5..=9).contains(&b));
    }
    assert_eq!(gen_empty_slide_rook_inner(0).count_ones(), 12);
    assert_eq!(gen_empty_slide_bishop_inner(27).count_ones(), 9);
}

#[test]
fn subsets_come_in_descending_order() {
    assert_eq!(gen_subsets(0b101), vec![0b101, 0b100, 0b001, 0b000]);
    assert_eq!(gen_subsets(0), vec![0]);
}

#[test]
fn subsets_are_two_to_the_popcount() {
    let mask = gen_empty_slide_rook_inner(0);
    let subsets = gen_subsets(mask);
    assert_eq!(subsets.len(), 1 << 12);
    assert!(subsets.iter().all(|s| s & !mask == 0));
    assert!(subsets.windows(2).all(|w| w[0] > w[1]));
}

#[test]
fn blockers_outside_the_mask_do_not_matter() {
    for s in [0usize, 7, 27, 36, 56, 63] {
        let rook_mask = gen_empty_slide_rook_inner(s);
        let bishop_mask = gen_empty_slide_bishop_inner(s);
        for occ in [0xFFFF_0000_0000_FFFFu64, 0x55AA_55AA_55AA_55AA, 0x8100_0000_0000_0081, !0] {
            assert_eq!(gen_slide_rook(s, occ), gen_slide_rook(s, occ & rook_mask));
            assert_eq!(gen_slide_bishop(s, occ), gen_slide_bishop(s, occ & bishop_mask));
        }
    }
}

#[test]
fn bishop_lookup_round_trips_for_every_subset() {
    let table = BishopTable::new().unwrap();
    for s in 0..64usize {
        for occ in gen_subsets(table.masks[s]) {
            assert_eq!(table.lookup(s, occ), gen_slide_bishop(s, occ));
        }
    }
}

#[test]
fn rook_lookup_round_trips_for_every_subset() {
    let table = RookTable::new().unwrap();
    for s in 0..64usize {
        for occ in gen_subsets(table.masks[s]) {
            assert_eq!(table.lookup(s, occ), gen_slide_rook(s, occ));
        }
    }
}

#[test]
fn lookups_agree_with_ray_tracing_on_full_occupancies() {
    let rooks = RookTable::new().unwrap();
    let bishops = BishopTable::new().unwrap();
    let mut occ = 0x9E37_79B9_7F4A_7C15u64;
    for _ in 0..200 {
        occ ^= occ << 13;
        occ ^= occ >> 7;
        occ ^= occ << 17;
        for s in 0..64usize {
            assert_eq!(rooks.lookup(s, occ), gen_slide_rook(s, occ));
            assert_eq!(bishops.lookup(s, occ), gen_slide_bishop(s, occ));
        }
    }
}

#[test]
fn tables_are_laid_out_slice_after_slice() {
    let rooks = RookTable::new().unwrap();
    let bishops = BishopTable::new().unwrap();
    assert_eq!(rooks.table.len(), 102_400);
    assert_eq!(bishops.table.len(), 5_248);
    let mut offset = 0;
    for s in 0..64usize {
        assert_eq!(rooks.masks[s], gen_empty_slide_rook_inner(s));
        assert_eq!(rooks.offsets[s], offset);
        offset += 1usize << rooks.masks[s].count_ones();
    }
}

#[test]
fn different_attack_sets_never_share_a_slot() {
    let table = BishopTable::new().unwrap();
    for s in [0usize, 27, 36, 63] {
        let mask = table.masks[s];
        let subsets = gen_subsets(mask);
        for a in &subsets {
            for b in &subsets {
                if gen_slide_bishop(s, *a) != gen_slide_bishop(s, *b) {
                    assert_ne!(index(*a, table.magics[s], mask), index(*b, table.magics[s], mask));
                }
            }
        }
    }
    let rooks = RookTable::new().unwrap();
    let mask = rooks.masks[27];
    let subsets = gen_subsets(mask);
    for a in subsets.iter().step_by(7) {
        for b in subsets.iter().step_by(5) {
            if gen_slide_rook(27, *a) != gen_slide_rook(27, *b) {
                assert_ne!(index(*a, rooks.magics[27], mask), index(*b, rooks.magics[27], mask));
            }
        }
    }
}

#[test]
fn found_magics_are_accepted() {
    for s in [0usize, 27, 63] {
        let rook = find_magic(s, PieceType::Rook).unwrap();
        assert!(accept_magic(s, PieceType::Rook, rook));
        let bishop = find_magic(s, PieceType::Bishop).unwrap();
        assert!(accept_magic(s, PieceType::Bishop, bishop));
    }
}

#[test]
fn table_magics_are_accepted() {
    let table = BishopTable::new().unwrap();
    for s in 0..64usize {
        assert!(accept_magic(s, PieceType::Bishop, table.magics[s]));
    }
}

#[test]
fn useless_magics_are_rejected() {
    // the product with the mask is zero: nothing in the top byte
    assert!(!accept_magic(0, PieceType::Rook, 0));
    // dense in the top byte, but every subset without bit 56 lands in slot 0
    assert!(!accept_magic(27, PieceType::Rook, 0xFF00_0000_0000_0000));
    // identity: keeps only the top bits of the subset, which are the same for many
    assert!(!accept_magic(27, PieceType::Bishop, 1));
}

#[test]
fn slots_that_no_subset_selects_stay_empty() {
    let table = BishopTable::new().unwrap();
    for s in 0..64usize {
        let mask = table.masks[s];
        let size = 1usize << mask.count_ones();
        let mut hit = vec![false; size];
        for occ in gen_subsets(mask) {
            hit[index(occ, table.magics[s], mask)] = true;
        }
        for j in 0..size {
            if !hit[j] {
                assert_eq!(table.table[table.offsets[s] + j], 0);
            } else {
                assert_ne!(table.table[table.offsets[s] + j], 0);
            }
        }
    }
}

#[test]
fn common_bits_are_those_of_all_three() {
    assert_eq!(common_bits(0b1110, 0b0111, 0b1101), 0b0100);
    assert_eq!(common_bits(!0, !0, 0x00FF_0000_0000_1234), 0x00FF_0000_0000_1234);
    assert_eq!(common_bits(0xF0F0, 0x0F0F, !0), 0);
    let x = 0x9E37_79B9_7F4A_7C15u64;
    assert_eq!(common_bits(x, x, x), x);
}

#[test]
fn tables_are_rebuilt_from_their_magics() {
    let rooks = RookTable::new().unwrap();
    let again = RookTable::from_magics(rooks.magics).unwrap();
    assert_eq!(again.magics, rooks.magics);
    assert_eq!(again.masks, rooks.masks);
    assert_eq!(again.offsets, rooks.offsets);
    assert_eq!(again.table, rooks.table);
    let bishops = BishopTable::new().unwrap();
    let again = BishopTable::from_magics(bishops.magics).unwrap();
    assert_eq!(again.magics, bishops.magics);
    assert_eq!(again.masks, bishops.masks);
    assert_eq!(again.offsets, bishops.offsets);
    assert_eq!(again.table, bishops.table);
    assert_eq!(again.lookup(27, 0), gen_slide_bishop(27, 0));
}

#[test]
fn tables_are_refused_where_a_magic_collides() {
    assert!(RookTable::from_magics([0; 64]).is_none());
    assert!(BishopTable::from_magics([0; 64]).is_none());
    let rooks = RookTable::new().unwrap();
    let mut magics = rooks.magics;
    magics[63] = 1;
    assert!(RookTable::from_magics(magics).is_none());
    // a rook's magics do not serve a bishop
    assert!(BishopTable::from_magics(rooks.magics).is_none());
}

#[test]
fn found_magics_are_dense_in_the_top_byte() {
    let bishops = BishopTable::new().unwrap();
    for s in 0..64usize {
        let product = bishops.masks[s].wrapping_mul(bishops.magics[s]);
        assert!((product & 0xFF00_0000_0000_0000).count_ones() >= 6);
    }
}
