//! Magic multipliers: the search for a collision-free multiply-and-shift
//! hash per square, and the flat attack tables that it indexes.

use vstd::prelude::*;
use vstd::arithmetic::power2::{lemma2_to64, pow2};
use vstd::bits::{lemma_u64_shl_is_mul, lemma_usize_shl_is_mul};
use crate::bits::{lemma_subset_basics, popcount, subset};
use crate::squares::on_board;
use crate::subsets::gen_subsets;
use crate::sliding_attacks::{
    bishop_attacks, bishop_mask, gen_empty_slide_bishop_inner, gen_empty_slide_rook_inner,
    gen_slide_bishop, gen_slide_rook, lemma_bishop_attacks_nonempty,
    lemma_bishop_mask_count, lemma_bishop_mask_suffices, lemma_rook_attacks_nonempty,
    lemma_rook_mask_count, lemma_rook_mask_suffices, rook_attacks, rook_mask,
};

verus! {

/// The two kinds of sliding piece that have a table of their own.
#[derive(Clone, Copy, Debug, PartialEq, Eq)]
pub enum PieceType {
    Bishop,
    Rook,
}

/// The largest number of attempts that one search for a magic makes.
pub const MAX_TRIALS: u64 = 0xffff_ffff_ffff_ffff;

/// The relevant-occupancy mask of a `piece` on `s`.
pub open spec fn mask_of(piece: PieceType, s: int) -> u64 {
    match piece {
        PieceType::Bishop => bishop_mask(s),
        PieceType::Rook => rook_mask(s),
    }
}

/// The squares that a `piece` on `s` attacks over the occupancy `occ`.
pub open spec fn attacks_of(piece: PieceType, s: int, occ: u64) -> u64 {
    match piece {
        PieceType::Bishop => bishop_attacks(s, occ),
        PieceType::Rook => rook_attacks(s, occ),
    }
}

/// The number of index bits of a `piece` on `s`: the size of its mask.
pub open spec fn index_bits(piece: PieceType, s: int) -> nat {
    popcount(mask_of(piece, s))
}

/// The table slot of the blocker set `occ`: the top `bits` bits of its
/// wrapping product with `magic`.
pub open spec fn magic_index(occ: u64, magic: u64, bits: nat) -> int {
    (occ.wrapping_mul(magic) >> ((64 - bits) as u64)) as int
}

/// `magic` is a perfect hash for a `piece` on `s` with respect to attack
/// sets: blocker subsets that share a slot share their attack set.
pub open spec fn collision_free(piece: PieceType, s: int, magic: u64) -> bool {
    forall|a: u64, b: u64|
        #![trigger magic_index(a, magic, index_bits(piece, s)), magic_index(b, magic, index_bits(piece, s))]
        subset(a, mask_of(piece, s)) && subset(b, mask_of(piece, s)) && magic_index(
            a,
            magic,
            index_bits(piece, s),
        ) == magic_index(b, magic, index_bits(piece, s)) ==> attacks_of(piece, s, a) == attacks_of(
            piece,
            s,
            b,
        )
}

/// The product of `mask` and `magic` has at least six members on the last rank.
pub open spec fn top_byte_dense(mask: u64, magic: u64) -> bool {
    popcount(mask.wrapping_mul(magic) & 0xFF00_0000_0000_0000) >= 6
}

/// `list` holds subsets of `mask` only, and every one of them.
pub open spec fn enumerates(list: Seq<u64>, mask: u64) -> bool {
    &&& forall|i: int| 0 <= i < list.len() ==> subset(#[trigger] list[i], mask)
    &&& forall|x: u64| subset(x, mask) ==> list.contains(x)
}

proof fn bv_slot_bound(x: u64, n: u64)
    by (bit_vector)
    requires
        1 <= n <= 12,
    ensures
        (x >> ((64 - n) as u64)) < (1u64 << n),
        (1u64 << n) <= 4096,
{
}

/// Every slot of an index of `bits` bits lies below `2^bits`.
pub proof fn lemma_magic_index_bound(occ: u64, magic: u64, bits: nat)
    requires
        1 <= bits <= 12,
    ensures
        0 <= magic_index(occ, magic, bits) < pow2(bits) <= 4096,
{
    bv_slot_bound(occ.wrapping_mul(magic), bits as u64);
    lemma2_to64();
    lemma_u64_shl_is_mul(1, bits as u64);
}

fn relevant_mask(piece_type: PieceType, square: usize) -> (mask: u64)
    requires
        square < 64,
    ensures
        mask == mask_of(piece_type, square as int),
        1 <= popcount(mask) <= 12,
{
    proof {
        lemma_rook_mask_count(square as int);
        lemma_bishop_mask_count(square as int);
    }
    match piece_type {
        PieceType::Bishop => gen_empty_slide_bishop_inner(square),
        PieceType::Rook => gen_empty_slide_rook_inner(square),
    }
}

fn trace_attacks(piece_type: PieceType, square: usize, occ: u64) -> (attacks: u64)
    requires
        square < 64,
    ensures
        attacks == attacks_of(piece_type, square as int, occ),
        attacks != 0,
{
    proof {
        lemma_rook_attacks_nonempty(square as int, occ);
        lemma_bishop_attacks_nonempty(square as int, occ);
    }
    match piece_type {
        PieceType::Bishop => gen_slide_bishop(square, occ),
        PieceType::Rook => gen_slide_rook(square, occ),
    }
}

fn slot_count(bits: u32) -> (count: usize)
    requires
        bits <= 12,
    ensures
        count == pow2(bits as nat),
        1 <= count <= 4096,
{
    proof {
        lemma2_to64();
        lemma_usize_shl_is_mul(1, bits as usize);
    }
    1usize << (bits as usize)
}

fn magic_slot(occ: u64, magic: u64, bits: u32) -> (slot: usize)
    requires
        1 <= bits <= 12,
    ensures
        slot == magic_index(occ, magic, bits as nat),
        slot < pow2(bits as nat),
{
    proof {
        lemma_magic_index_bound(occ, magic, bits as nat);
    }
    let shift: u64 = 64 - bits as u64;
    (occ.wrapping_mul(magic) >> shift) as usize
}

/// A sliding piece attacks at least one square, whatever stands on the board.
proof fn lemma_nonempty(piece: PieceType, s: int, occ: u64)
    requires
        on_board(s),
    ensures
        attacks_of(piece, s, occ) != 0,
{
    lemma_rook_attacks_nonempty(s, occ);
    lemma_bishop_attacks_nonempty(s, occ);
}

/// The verification pass over one candidate: hashes every blocker subset
/// into `used` and reports whether no two different attack sets met in a slot.
fn check_magic(
    piece_type: PieceType,
    square: usize,
    bits: u32,
    subsets: &Vec<u64>,
    magic: u64,
    used: &mut Vec<u64>,
) -> (ok: bool)
    requires
        square < 64,
        bits == index_bits(piece_type, square as int),
        1 <= bits <= 12,
        enumerates(subsets@, mask_of(piece_type, square as int)),
        old(used)@.len() == pow2(bits as nat),
    ensures
        ok == collision_free(piece_type, square as int, magic),
        final(used)@.len() == old(used)@.len(),
{
    let ghost s = square as int;
    let ghost n = bits as nat;
    let mut j: usize = 0;
    while j < used.len()
        invariant
            j <= used@.len(),
            used@.len() == pow2(n),
            used@.len() == old(used)@.len(),
            forall|k: int| 0 <= k < j ==> used@[k] == 0,
        decreases used@.len() - j,
    {
        used.set(j, 0);
        j = j + 1;
    }
    let ghost mut owner: Seq<int> = Seq::new(used@.len(), |k: int| 0int);
    let mut i: usize = 0;
    while i < subsets.len()
        invariant
            i <= subsets@.len(),
            s == square as int,
            square < 64,
            n == bits as nat,
            bits == index_bits(piece_type, s),
            1 <= bits <= 12,
            enumerates(subsets@, mask_of(piece_type, s)),
            used@.len() == pow2(n),
            used@.len() == old(used)@.len(),
            owner.len() == used@.len(),
            forall|k: int|
                0 <= k < i ==> used@[magic_index(#[trigger] subsets@[k], magic, n)] == attacks_of(
                    piece_type,
                    s,
                    subsets@[k],
                ),
            forall|slot: int|
                0 <= slot < used@.len() && #[trigger] used@[slot] != 0 ==> 0 <= owner[slot] < i
                    && magic_index(subsets@[owner[slot]], magic, n) == slot,
        decreases subsets@.len() - i,
    {
        let occ = subsets[i];
        let slot = magic_slot(occ, magic, bits);
        let attacks = trace_attacks(piece_type, square, occ);
        let ghost before = used@;
        if used[slot] == 0 {
            proof {
                owner = owner.update(slot as int, i as int);
            }
            used.set(slot, attacks);
            proof {
                assert forall|k: int| 0 <= k < i + 1 implies used@[magic_index(
                    #[trigger] subsets@[k],
                    magic,
                    n,
                )] == attacks_of(piece_type, s, subsets@[k]) by {
                    lemma_magic_index_bound(subsets@[k], magic, n);
                    if k < i {
                        lemma_nonempty(piece_type, s, subsets@[k]);
                        assert(before[magic_index(subsets@[k], magic, n)] != 0);
                    }
                }
            }
        } else if used[slot] != attacks {
            proof {
                let a = subsets@[owner[slot as int]];
                assert(subset(a, mask_of(piece_type, s)));
                assert(subset(occ, mask_of(piece_type, s)));
                assert(magic_index(a, magic, n) == magic_index(occ, magic, n));
                assert(attacks_of(piece_type, s, a) != attacks_of(piece_type, s, occ));
            }
            return false;
        }
        i = i + 1;
    }
    proof {
        assert forall|a: u64, b: u64|
            subset(a, mask_of(piece_type, s)) && subset(b, mask_of(piece_type, s)) && magic_index(
                a,
                magic,
                n,
            ) == magic_index(b, magic, n) implies attacks_of(piece_type, s, a) == attacks_of(
            piece_type,
            s,
            b,
        ) by {
            let ka = choose|k: int| 0 <= k < subsets@.len() && subsets@[k] == a;
            let kb = choose|k: int| 0 <= k < subsets@.len() && subsets@[k] == b;
            assert(subsets@[ka] == a && subsets@[kb] == b);
        }
    }
    true
}

/// Whether `magic` may serve a `piece_type` on `square`: its product with the
/// mask is dense in the top byte, and no two blocker subsets with different
/// attack sets share a slot.
pub fn accept_magic(square: usize, piece_type: PieceType, magic: u64) -> (ok: bool)
    requires
        square < 64,
    ensures
        ok == (top_byte_dense(mask_of(piece_type, square as int), magic) && collision_free(
            piece_type,
            square as int,
            magic,
        )),
{
    let mask = relevant_mask(piece_type, square);
    if (mask.wrapping_mul(magic) & 0xFF00_0000_0000_0000).count_ones() < 6 {
        return false;
    }
    let subsets = gen_subsets(mask);
    let bits = mask.count_ones();
    let mut used = vec![0u64; slot_count(bits)];
    check_magic(piece_type, square, bits, &subsets, magic, &mut used)
}

/// One draw of `fastrand::u64` over the whole range of `u64`, from the
/// thread's generator. Nothing is promised of the value.
#[verifier::external_body]
fn random_u64() -> u64 {
    fastrand::u64(..)
}

/// A random number with few members: three draws, intersected.
fn random_u64_few_bits() -> u64 {
    common_bits(random_u64(), random_u64(), random_u64())
}

/// Draws candidates until one is accepted, at most `MAX_TRIALS` times. What
/// comes back as `Some` is a magic for a `piece_type` on `square`; whether
/// one comes back lies with the draws.
pub fn find_magic(square: usize, piece_type: PieceType) -> (found: Option<u64>)
    requires
        square < 64,
    ensures
        found matches Some(magic) ==> top_byte_dense(mask_of(piece_type, square as int), magic)
            && collision_free(piece_type, square as int, magic),
{
    let mask = relevant_mask(piece_type, square);
    let subsets = gen_subsets(mask);
    let bits = mask.count_ones();
    let mut used = vec![0u64; slot_count(bits)];
    let mut trials: u64 = 0;
    while trials < MAX_TRIALS
        invariant
            square < 64,
            mask == mask_of(piece_type, square as int),
            bits == index_bits(piece_type, square as int),
            1 <= bits <= 12,
            enumerates(subsets@, mask),
            used@.len() == pow2(bits as nat),
        decreases MAX_TRIALS - trials,
    {
        trials = trials + 1;
        let magic = random_u64_few_bits();
        if (mask.wrapping_mul(magic) & 0xFF00_0000_0000_0000).count_ones() >= 6 {
            if check_magic(piece_type, square, bits, &subsets, magic, &mut used) {
                return Some(magic);
            }
        }
    }
    None
}

/// The entry that the blocker set `occ` selects in the slice of `table` that
/// starts at `offset`.
pub open spec fn entry(table: Seq<u64>, offset: int, occ: u64, magic: u64, bits: nat) -> u64 {
    table[offset + magic_index(occ, magic, bits)]
}

/// Some blocker subset of the mask of square `s` selects slot `j`.
pub open spec fn selected(piece: PieceType, s: int, magic: u64, j: int) -> bool {
    exists|occ: u64|
        subset(occ, mask_of(piece, s)) && #[trigger] magic_index(occ, magic, index_bits(piece, s))
            == j
}

/// The slice of square `s` lies inside `table`, every blocker subset of its
/// mask selects in it the attack set that ray tracing gives, and the slots
/// that no subset selects hold the empty set.
pub open spec fn square_wf(
    piece: PieceType,
    table: Seq<u64>,
    magic: u64,
    mask: u64,
    offset: int,
    s: int,
) -> bool {
    &&& mask == mask_of(piece, s)
    &&& 0 <= offset
    &&& offset + pow2(index_bits(piece, s)) <= table.len()
    &&& forall|occ: u64|
        subset(occ, mask) ==> #[trigger] entry(table, offset, occ, magic, index_bits(piece, s))
            == attacks_of(piece, s, occ)
    &&& forall|j: int|
        0 <= j < pow2(index_bits(piece, s)) && !selected(piece, s, magic, j) ==> #[trigger] table[offset
            + j] == 0
}

/// Where the slice of square `s` ends: two to the number of its index bits
/// behind its offset.
pub open spec fn slice_end(piece: PieceType, offsets: [usize; 64], s: int) -> int {
    offsets[s] + pow2(index_bits(piece, s))
}

/// The 64 slices lie one behind another, in the order of the squares, and
/// fill a table of length `len`.
pub open spec fn laid_out(piece: PieceType, len: int, offsets: [usize; 64]) -> bool {
    &&& offsets[0] == 0
    &&& forall|s: int| 0 <= s < 63 ==> #[trigger] offsets[s + 1] == slice_end(piece, offsets, s)
    &&& len == slice_end(piece, offsets, 63)
}

/// The four parts of a table describe the attacks of `piece` from every square.
pub open spec fn table_wf(
    piece: PieceType,
    table: Seq<u64>,
    magics: [u64; 64],
    masks: [u64; 64],
    offsets: [usize; 64],
) -> bool {
    &&& laid_out(piece, table.len() as int, offsets)
    &&& forall|s: int|
        0 <= s < 64 ==> square_wf(piece, table, #[trigger] magics[s], masks[s], offsets[s] as int, s)
}

/// A square whose slice is well formed has a collision-free magic.
pub proof fn lemma_square_wf_collision_free(
    piece: PieceType,
    table: Seq<u64>,
    magic: u64,
    mask: u64,
    offset: int,
    s: int,
)
    requires
        square_wf(piece, table, magic, mask, offset, s),
    ensures
        collision_free(piece, s, magic),
{
    let n = index_bits(piece, s);
    assert forall|a: u64, b: u64|
        subset(a, mask_of(piece, s)) && subset(b, mask_of(piece, s)) && magic_index(a, magic, n)
            == magic_index(b, magic, n) implies attacks_of(piece, s, a) == attacks_of(
        piece,
        s,
        b,
    ) by {
        assert(entry(table, offset, a, magic, n) == attacks_of(piece, s, a));
        assert(entry(table, offset, b, magic, n) == attacks_of(piece, s, b));
    }
}

/// Blockers outside the relevant-occupancy mask never change the attacks.
pub proof fn lemma_mask_suffices(piece: PieceType, s: int, occ: u64)
    requires
        on_board(s),
    ensures
        attacks_of(piece, s, occ & mask_of(piece, s)) == attacks_of(piece, s, occ),
{
    lemma_rook_mask_suffices(s, occ);
    lemma_bishop_mask_suffices(s, occ);
}

/// The query: project the occupancy onto the mask, multiply, shift, index.
fn lookup_attacks(
    piece_type: PieceType,
    table: &Vec<u64>,
    magics: &[u64; 64],
    masks: &[u64; 64],
    offsets: &[usize; 64],
    square: usize,
    blockers: u64,
) -> (attacks: u64)
    requires
        square < 64,
        table_wf(piece_type, table@, *magics, *masks, *offsets),
    ensures
        attacks == attacks_of(piece_type, square as int, blockers),
{
    let magic = magics[square];
    let mask = masks[square];
    let occ = blockers & mask;
    let n = mask.count_ones();
    proof {
        let s = square as int;
        assert(square_wf(piece_type, table@, magics[s], masks[s], offsets[s] as int, s));
        lemma_rook_mask_count(s);
        lemma_bishop_mask_count(s);
        lemma_subset_basics(blockers, mask);
        lemma_magic_index_bound(occ, magic, n as nat);
        lemma_mask_suffices(piece_type, s, blockers);
        assert(entry(table@, offsets[s] as int, occ, magic, n as nat) == attacks_of(
            piece_type,
            s,
            occ,
        ));
    }
    let index = magic_slot(occ, magic, n);
    let len = table.len();
    assert(offsets[square as int] + index < len);
    table[offsets[square] + index]
}

/// The magic of every square passed the test of the top byte.
pub open spec fn magics_dense(piece: PieceType, magics: [u64; 64]) -> bool {
    forall|s: int| 0 <= s < 64 ==> top_byte_dense(mask_of(piece, s), #[trigger] magics[s])
}

/// Draws a magic for each of the 64 squares.
fn find_magics(piece_type: PieceType) -> (found: Option<[u64; 64]>)
    ensures
        found matches Some(magics) ==> magics_dense(piece_type, magics) && forall|s: int|
            0 <= s < 64 ==> collision_free(piece_type, s, #[trigger] magics[s]),
{
    let mut magics = [0u64;64];
    let mut square: usize = 0;
    while square < 64
        invariant
            square <= 64,
            forall|s: int| 0 <= s < square ==> collision_free(piece_type, s, #[trigger] magics[s]),
            forall|s: int|
                0 <= s < square ==> top_byte_dense(mask_of(piece_type, s), #[trigger] magics[s]),
        decreases 64 - square,
    {
        match find_magic(square, piece_type) {
            Some(magic) => {
                magics[square] = magic;
            },
            None => {
                return None;
            },
        }
        square = square + 1;
    }
    Some(magics)
}

/// Lays the 64 slices out one after another in one flat table and fills each
/// with the ray-traced attack set of every blocker subset.
fn fill_table(piece_type: PieceType, magics: &[u64; 64]) -> (parts: (Vec<u64>, [u64; 64], [usize; 64]))
    requires
        forall|s: int| 0 <= s < 64 ==> collision_free(piece_type, s, #[trigger] magics[s]),
    ensures
        table_wf(piece_type, parts.0@, *magics, parts.1, parts.2),
{
    let mut table: Vec<u64> = Vec::new();
    let mut offsets = [0usize;64];
    let mut masks = [0u64;64];
    let mut square: usize = 0;
    while square < 64
        invariant
            square <= 64,
            table@.len() <= square * 4096,
            table@.len() == if square == 0 {
                0
            } else {
                slice_end(piece_type, offsets, square - 1)
            },
            square > 0 ==> offsets[0] == 0,
            forall|s: int|
                0 <= s < square - 1 ==> #[trigger] offsets[s + 1] == slice_end(
                    piece_type,
                    offsets,
                    s,
                ),
            forall|s: int| 0 <= s < 64 ==> collision_free(piece_type, s, #[trigger] magics[s]),
            forall|s: int|
                0 <= s < square ==> square_wf(
                    piece_type,
                    table@,
                    #[trigger] magics[s],
                    masks[s],
                    offsets[s] as int,
                    s,
                ),
        decreases 64 - square,
    {
        let ghost sq = square as int;
        let mask = relevant_mask(piece_type, square);
        let subsets = gen_subsets(mask);
        let n = mask.count_ones();
        let size = slot_count(n);
        let offset = table.len();
        let magic = magics[square];
        let ghost earlier = table@;
        let ghost earlier_masks = masks;
        let ghost earlier_offsets = offsets;
        offsets[square] = offset;
        masks[square] = mask;
        table.resize(offset + size, 0);
        proof {
            assert(table@.subrange(0, offset as int) == earlier);
            assert forall|j: int| 0 <= j < offset implies table@[j] == earlier[j] by {
                assert(table@.subrange(0, offset as int)[j] == table@[j]);
            }
        }
        let ghost mut owner: Seq<int> = Seq::new(size as nat, |j: int| 0int);
        let mut i: usize = 0;
        while i < subsets.len()
            invariant
                i <= subsets@.len(),
                sq == square as int,
                square < 64,
                mask == mask_of(piece_type, sq),
                n == index_bits(piece_type, sq),
                1 <= n <= 12,
                size == pow2(n as nat),
                magic == magics[sq],
                collision_free(piece_type, sq, magic),
                enumerates(subsets@, mask),
                table@.len() == offset + size,
                earlier.len() == offset,
                forall|j: int| 0 <= j < offset ==> table@[j] == earlier[j],
                owner.len() == size,
                forall|j: int|
                    0 <= j < size ==> #[trigger] table@[offset + j] == 0 || (0 <= owner[j] < i
                        && magic_index(subsets@[owner[j]], magic, n as nat) == j),
                forall|k: int|
                    0 <= k < i ==> entry(table@, offset as int, #[trigger] subsets@[k], magic, n as nat)
                        == attacks_of(piece_type, sq, subsets@[k]),
            decreases subsets@.len() - i,
        {
            let occ = subsets[i];
            let index = magic_slot(occ, magic, n);
            let attacks = trace_attacks(piece_type, square, occ);
            let len = table.len();
            assert(offset + index < len);
            table.set(offset + index, attacks);
            proof {
                owner = owner.update(index as int, i as int);
                assert forall|k: int| 0 <= k < i + 1 implies entry(
                    table@,
                    offset as int,
                    #[trigger] subsets@[k],
                    magic,
                    n as nat,
                ) == attacks_of(piece_type, sq, subsets@[k]) by {
                    lemma_magic_index_bound(subsets@[k], magic, n as nat);
                    if k < i && magic_index(subsets@[k], magic, n as nat) == index {
                        assert(subset(subsets@[k], mask) && subset(occ, mask));
                    }
                }
            }
            i = i + 1;
        }
        proof {
            assert forall|occ: u64| subset(occ, mask) implies #[trigger] entry(
                table@,
                offset as int,
                occ,
                magic,
                n as nat,
            ) == attacks_of(piece_type, sq, occ) by {
                let k = choose|k: int| 0 <= k < subsets@.len() && subsets@[k] == occ;
                assert(subsets@[k] == occ);
            }
            assert forall|j: int|
                0 <= j < pow2(n as nat) && !selected(piece_type, sq, magic, j) implies #[trigger] table@[offset
                + j] == 0 by {
                if table@[offset + j] != 0 {
                    let occ = subsets@[owner[j]];
                    assert(subset(occ, mask) && magic_index(occ, magic, n as nat) == j);
                }
            }
            assert(square_wf(piece_type, table@, magics[sq], masks[sq], offsets[sq] as int, sq));
            assert forall|s: int| 0 <= s < square implies square_wf(
                piece_type,
                table@,
                #[trigger] magics[s],
                masks[s],
                offsets[s] as int,
                s,
            ) by {
                assert(square_wf(
                    piece_type,
                    earlier,
                    magics[s],
                    earlier_masks[s],
                    earlier_offsets[s] as int,
                    s,
                ));
                assert(masks[s] == earlier_masks[s] && offsets[s] == earlier_offsets[s]);
                let m = index_bits(piece_type, s);
                lemma_rook_mask_count(s);
                lemma_bishop_mask_count(s);
                assert forall|occ: u64| subset(occ, masks[s]) implies #[trigger] entry(
                    table@,
                    offsets[s] as int,
                    occ,
                    magics[s],
                    m,
                ) == attacks_of(piece_type, s, occ) by {
                    lemma_magic_index_bound(occ, magics[s], m);
                    assert(entry(earlier, offsets[s] as int, occ, magics[s], m) == attacks_of(
                        piece_type,
                        s,
                        occ,
                    ));
                }
                assert forall|j: int|
                    0 <= j < pow2(m) && !selected(piece_type, s, magics[s], j) implies #[trigger] table@[offsets[s]
                    + j] == 0 by {
                    assert(earlier[offsets[s] + j] == 0);
                }
            }
        }
        square = square + 1;
    }
    (table, masks, offsets)
}

/// The rook's attack table: per square a mask, a magic and the offset of its
/// slice in the flat `table`.
#[derive(Debug, Clone)]
pub struct RookTable {
    pub table: Vec<u64>,
    pub magics: [u64; 64],
    pub masks: [u64; 64],
    pub offsets: [usize; 64],
}

impl RookTable {
    /// Every slice of the table answers every query of its square exactly.
    pub open spec fn wf(&self) -> bool {
        table_wf(PieceType::Rook, self.table@, self.magics, self.masks, self.offsets)
    }

    /// The squares that a rook on `square` attacks when `blockers` are the
    /// occupied squares.
    pub fn lookup(&self, square: usize, blockers: u64) -> (attacks: u64)
        requires
            self.wf(),
            square < 64,
        ensures
            attacks == rook_attacks(square as int, blockers),
    {
        lookup_attacks(
            PieceType::Rook,
            &self.table,
            &self.magics,
            &self.masks,
            &self.offsets,
            square,
            blockers,
        )
    }

    /// Searches the magics and builds the table; `None` when the search for
    /// some square gave up.
    pub fn new() -> (made: Option<Self>)
        ensures
            made matches Some(t) ==> t.wf() && magics_dense(PieceType::Rook, t.magics),
    {
        rook_table()
    }

    /// No false collisions: two blocker subsets of one square's mask whose
    /// attack sets differ never select the same entry.
    pub proof fn lemma_no_false_collisions(&self, s: int, a: u64, b: u64)
        requires
            self.wf(),
            on_board(s),
            subset(a, self.masks[s]),
            subset(b, self.masks[s]),
            rook_attacks(s, a) != rook_attacks(s, b),
        ensures
            magic_index(a, self.magics[s], popcount(self.masks[s])) != magic_index(
                b,
                self.magics[s],
                popcount(self.masks[s]),
            ),
    {
        lemma_square_wf_collision_free(
            PieceType::Rook,
            self.table@,
            self.magics[s],
            self.masks[s],
            self.offsets[s] as int,
            s,
        );
    }
}

/// The bishop's attack table: per square a mask, a magic and the offset of
/// its slice in the flat `table`.
#[derive(Debug, Clone)]
pub struct BishopTable {
    pub table: Vec<u64>,
    pub magics: [u64; 64],
    pub masks: [u64; 64],
    pub offsets: [usize; 64],
}

impl BishopTable {
    /// Every slice of the table answers every query of its square exactly.
    pub open spec fn wf(&self) -> bool {
        table_wf(PieceType::Bishop, self.table@, self.magics, self.masks, self.offsets)
    }

    /// The squares that a bishop on `square` attacks when `blockers` are the
    /// occupied squares.
    pub fn lookup(&self, square: usize, blockers: u64) -> (attacks: u64)
        requires
            self.wf(),
            square < 64,
        ensures
            attacks == bishop_attacks(square as int, blockers),
    {
        lookup_attacks(
            PieceType::Bishop,
            &self.table,
            &self.magics,
            &self.masks,
            &self.offsets,
            square,
            blockers,
        )
    }

    /// Searches the magics and builds the table; `None` when the search for
    /// some square gave up.
    pub fn new() -> (made: Option<Self>)
        ensures
            made matches Some(t) ==> t.wf() && magics_dense(PieceType::Bishop, t.magics),
    {
        bishop_table()
    }

    /// No false collisions: two blocker subsets of one square's mask whose
    /// attack sets differ never select the same entry.
    pub proof fn lemma_no_false_collisions(&self, s: int, a: u64, b: u64)
        requires
            self.wf(),
            on_board(s),
            subset(a, self.masks[s]),
            subset(b, self.masks[s]),
            bishop_attacks(s, a) != bishop_attacks(s, b),
        ensures
            magic_index(a, self.magics[s], popcount(self.masks[s])) != magic_index(
                b,
                self.magics[s],
                popcount(self.masks[s]),
            ),
    {
        lemma_square_wf_collision_free(
            PieceType::Bishop,
            self.table@,
            self.magics[s],
            self.masks[s],
            self.offsets[s] as int,
            s,
        );
    }
}

/// Builds the rook table from freshly drawn magics.
pub fn rook_table() -> (made: Option<RookTable>)
    ensures
        made matches Some(t) ==> t.wf() && magics_dense(PieceType::Rook, t.magics),
{
    match find_magics(PieceType::Rook) {
        Some(magics) => {
            let (table, masks, offsets) = fill_table(PieceType::Rook, &magics);
            Some(RookTable { table, magics, masks, offsets })
        },
        None => None,
    }
}

/// Builds the bishop table from freshly drawn magics.
pub fn bishop_table() -> (made: Option<BishopTable>)
    ensures
        made matches Some(t) ==> t.wf() && magics_dense(PieceType::Bishop, t.magics),
{
    match find_magics(PieceType::Bishop) {
        Some(magics) => {
            let (table, masks, offsets) = fill_table(PieceType::Bishop, &magics);
            Some(BishopTable { table, magics, masks, offsets })
        },
        None => None,
    }
}

/// The members that three sets share. Three random draws thinned out in
/// this way make a candidate with few members.
pub fn common_bits(a: u64, b: u64, c: u64) -> (shared: u64)
    ensures
        shared == a & b & c,
{
    a & b & c
}

/// Every one of the 64 magics is a perfect hash for its square.
pub open spec fn all_collision_free(piece: PieceType, magics: [u64; 64]) -> bool {
    forall|s: int| 0 <= s < 64 ==> collision_free(piece, s, #[trigger] magics[s])
}

/// Runs the verification pass over each of the given magics and, where all
/// of them pass, lays out and fills the table that they index.
fn parts_from_magics(piece_type: PieceType, magics: &[u64; 64]) -> (parts: Option<
    (Vec<u64>, [u64; 64], [usize; 64]),
>)
    ensures
        parts is Some <==> all_collision_free(piece_type, *magics),
        parts matches Some(p) ==> table_wf(piece_type, p.0@, *magics, p.1, p.2),
{
    let mut square: usize = 0;
    while square < 64
        invariant
            square <= 64,
            forall|s: int| 0 <= s < square ==> collision_free(piece_type, s, #[trigger] magics[s]),
        decreases 64 - square,
    {
        let mask = relevant_mask(piece_type, square);
        let subsets = gen_subsets(mask);
        let bits = mask.count_ones();
        let mut used = vec![0u64; slot_count(bits)];
        if !check_magic(piece_type, square, bits, &subsets, magics[square], &mut used) {
            proof {
                assert(!collision_free(piece_type, square as int, magics[square as int]));
            }
            return None;
        }
        square = square + 1;
    }
    Some(fill_table(piece_type, magics))
}

impl RookTable {
    /// The rook table that the given magics index: built where every magic
    /// is a perfect hash for its square, refused where one is not.
    pub fn from_magics(magics: [u64; 64]) -> (made: Option<Self>)
        ensures
            made is Some <==> all_collision_free(PieceType::Rook, magics),
            made matches Some(t) ==> t.magics == magics && t.wf(),
    {
        match parts_from_magics(PieceType::Rook, &magics) {
            Some((table, masks, offsets)) => Some(RookTable { table, magics, masks, offsets }),
            None => None,
        }
    }
}

impl BishopTable {
    /// The bishop table that the given magics index: built where every
    /// magic is a perfect hash for its square, refused where one is not.
    pub fn from_magics(magics: [u64; 64]) -> (made: Option<Self>)
        ensures
            made is Some <==> all_collision_free(PieceType::Bishop, magics),
            made matches Some(t) ==> t.magics == magics && t.wf(),
    {
        match parts_from_magics(PieceType::Bishop, &magics) {
            Some((table, masks, offsets)) => Some(BishopTable { table, magics, masks, offsets }),
            None => None,
        }
    }
}

} // verus!
