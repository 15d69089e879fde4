use oxidized_chess::piececonstants::{
    castling_rights, get_bishop_attacks, get_queen_attacks, get_rook_attacks, AttackTables,
    BISHOPMAGICNUMBERS, ROOKMAGICNUMBERS,
};
use oxidized_chess::pieceinit::{
    init_king_attacks, init_knight_attacks, init_pawn_attacks, mask_king_attacks,
    mask_knight_attacks, mask_pawn_attacks, mask_rook_attacks, set_occupancy,
};
use oxidized_chess::slider_init::{
    find_magic_number, init_slider_attacks, init_slider_attacks2, BISHOPBITS, ROOKBITS,
};

fn tables() -> AttackTables {
    AttackTables::new().expect("the magic numbers index every occupancy")
}

fn bit(s: u32) -> u64 {
    1u64 << s
}

#[test]
fn attack_tables_are_built() {
    assert!(AttackTables::new().is_some());
}

#[test]
fn rook_on_empty_corner_sees_rank_and_file() {
    let t = tables();
    let a = get_rook_attacks(&t, 0, 0);
    let mut expected = 0u64;
    for s in 1..8 {
        expected |= bit(s);
    }
    for r in 1..8 {
        expected |= bit(8 * r);
    }
    assert_eq!(a, expected);
    assert_eq!(a.count_ones(), 14);
}

#[test]
fn rook_stops_at_blockers() {
    let t = tables();
    // rook on e4 (36), blockers on e6 (20) and c4 (34)
    let occ = bit(20) | bit(34);
    let a = get_rook_attacks(&t, 36, occ);
    assert!(a & bit(20) != 0);
    assert!(a & bit(12) == 0);
    assert!(a & bit(34) != 0);
    assert!(a & bit(33) == 0);
    assert!(a & bit(39) != 0);
    assert!(a & bit(60) != 0);
    assert_eq!(a.count_ones(), 2 + 2 + 3 + 3);
}

#[test]
fn bishop_stops_at_blockers() {
    let t = tables();
    let empty = get_bishop_attacks(&t, 36, 0);
    assert_eq!(empty.count_ones(), 13);
    let occ = bit(18);
    let a = get_bishop_attacks(&t, 36, occ);
    assert!(a & bit(27) != 0);
    assert!(a & bit(18) != 0);
    assert!(a & bit(9) == 0);
    assert!(a & bit(0) == 0);
    assert_eq!(a.count_ones(), 11);
}

#[test]
fn queen_is_rook_and_bishop() {
    let t = tables();
    for sq in [0usize, 9, 27, 36, 63] {
        let occ = bit(18) | bit(45) | bit(12);
        assert_eq!(
            get_queen_attacks(&t, sq, occ),
            get_rook_attacks(&t, sq, occ) | get_bishop_attacks(&t, sq, occ)
        );
    }
}

#[test]
fn leaper_tables() {
    assert_eq!(init_knight_attacks()[0], bit(10) | bit(17));
    assert_eq!(mask_knight_attacks(36).count_ones(), 8);
    assert_eq!(init_king_attacks()[0], bit(1) | bit(8) | bit(9));
    assert_eq!(mask_king_attacks(36).count_ones(), 8);
    // white pawn on e2 attacks d3 and f3, black pawn on e7 attacks d6 and f6
    assert_eq!(mask_pawn_attacks(52, 0), bit(43) | bit(45));
    assert_eq!(mask_pawn_attacks(12, 1), bit(19) | bit(21));
    assert_eq!(init_pawn_attacks()[0][52], bit(43) | bit(45));
    assert_eq!(init_pawn_attacks()[0][48], bit(41));
    assert_eq!(init_pawn_attacks()[1][15], bit(22));
}

#[test]
fn rook_mask_leaves_out_edges() {
    let m = mask_rook_attacks(0);
    let mut expected = 0u64;
    for s in 1..7 {
        expected |= bit(s);
    }
    for r in 1..7 {
        expected |= bit(8 * r);
    }
    assert_eq!(m, expected);
    assert_eq!(m.count_ones(), 12);
}

#[test]
fn occupancy_subsets_of_a_mask() {
    let mask = mask_rook_attacks(0);
    let n = mask.count_ones();
    assert_eq!(set_occupancy(0, mask), 0);
    assert_eq!(set_occupancy((1usize << n) - 1, mask), mask);
    // index 1 keeps the lowest square of the mask alone
    assert_eq!(set_occupancy(1, mask), bit(1));
    assert_eq!(set_occupancy(2, mask), bit(2));
}

#[test]
fn castling_rights_masks() {
    assert_eq!(castling_rights(0), 7);
    assert_eq!(castling_rights(4), 3);
    assert_eq!(castling_rights(7), 11);
    assert_eq!(castling_rights(56), 13);
    assert_eq!(castling_rights(60), 12);
    assert_eq!(castling_rights(63), 14);
    assert_eq!(castling_rights(36), 15);
}

#[test]
fn slider_rows_agree_with_magic_lookup() {
    let t = tables();
    let rows = init_slider_attacks();
    assert_eq!(rows.len(), 2);
    assert_eq!(rows[0].len(), 64);
    assert_eq!(rows[1].len(), 64);
    for sq in [0usize, 27, 36, 63] {
        let rmask = mask_rook_attacks(sq as i8);
        let occ = set_occupancy(5, rmask);
        let slot = (occ & rmask).wrapping_mul(ROOKMAGICNUMBERS[sq]) >> (64 - ROOKBITS[sq]);
        assert_eq!(rows[0][sq][slot as usize], get_rook_attacks(&t, sq, occ));
        let bmask = t.bishop_masks[sq];
        let occ = set_occupancy(3, bmask);
        let slot = (occ & bmask).wrapping_mul(BISHOPMAGICNUMBERS[sq]) >> (64 - BISHOPBITS[sq]);
        assert_eq!(rows[1][sq][slot as usize], get_bishop_attacks(&t, sq, occ));
    }
}

#[test]
fn slider_block_layout() {
    let rook_pointers: [usize; 64] = [
        0, 4160, 6240, 8320, 10400, 12480, 14560, 16640, 20800, 22880, 23936, 24992, 26048, 27104,
        28160, 29216, 31296, 33376, 34432, 35584, 36736, 37888, 39040, 40096, 42176, 44256, 45312,
        46464, 48000, 49536, 50688, 51744, 53824, 55904, 56960, 58112, 59648, 61184, 62336, 63392,
        65472, 67552, 68608, 69760, 70912, 72064, 73216, 74272, 76352, 78432, 79488, 80544, 81600,
        82656, 83712, 84768, 86848, 91008, 93088, 95168, 97248, 99328, 101408, 103488,
    ];
    let bishop_pointers: [usize; 64] = [
        4096, 6208, 8288, 10368, 12448, 14528, 16608, 20736, 22848, 23904, 24960, 26016, 27072, 28128,
        29184, 31264, 33344, 34400, 35456, 36608, 37760, 38912, 40064, 42144, 44224, 45280, 46336,
        47488, 49024, 50560, 51712, 53792, 55872, 56928, 57984, 59136, 60672, 62208, 63360, 65440,
        67520, 68576, 69632, 70784, 71936, 73088, 74240, 76320, 78400, 79456, 80512, 81568, 82624,
        83680, 84736, 86816, 90944, 93056, 95136, 97216, 99296, 101376, 103456, 107584,
    ];
    let t = tables();
    let (attacks, starts, ends) = init_slider_attacks2();
    assert_eq!(attacks.len(), 107648);
    assert_eq!(starts.len(), 65);
    assert_eq!(ends.len(), 65);
    assert_eq!(starts[64], 107648);
    assert_eq!(ends[64], 0);
    for sq in 0..64 {
        assert_eq!(starts[sq], rook_pointers[sq]);
        assert_eq!(ends[sq], bishop_pointers[sq]);
        let rmask = mask_rook_attacks(sq as i8);
        for i in [0usize, 1, 7, 100, 1000] {
            let occ = set_occupancy(i % (1usize << rmask.count_ones()), rmask);
            let slot = occ.wrapping_mul(ROOKMAGICNUMBERS[sq]) >> (64 - ROOKBITS[sq]);
            assert_eq!(attacks[starts[sq] + slot as usize], get_rook_attacks(&t, sq, occ));
        }
        let bmask = t.bishop_masks[sq];
        for i in [0usize, 3, 30] {
            let occ = set_occupancy(i % (1usize << bmask.count_ones()), bmask);
            let slot = occ.wrapping_mul(BISHOPMAGICNUMBERS[sq]) >> (64 - BISHOPBITS[sq]);
            assert_eq!(attacks[ends[sq] + slot as usize], get_bishop_attacks(&t, sq, occ));
        }
    }
}

#[test]
fn found_magic_numbers_index_without_collisions() {
    let bits = BISHOPBITS[0];
    let magic = find_magic_number(0, bits, true);
    assert_ne!(magic, 0);
    let t = tables();
    let mask = t.bishop_masks[0];
    let n = mask.count_ones();
    let mut seen: Vec<Option<u64>> = vec![None; 1usize << bits];
    for i in 0..(1usize << n) {
        let occ = set_occupancy(i, mask);
        let slot = (occ.wrapping_mul(magic) >> (64 - bits)) as usize;
        let att = get_bishop_attacks(&t, 0, occ);
        match seen[slot] {
            None => seen[slot] = Some(att),
            Some(a) => assert_eq!(a, att),
        }
    }
}

#[test]
fn edge_squares_do_not_change_slider_attacks() {
    let t = tables();
    // a rook on d4 sees the board edge whether or not the edge squares are occupied
    let edges: u64 = 0xFF | (0xFF << 56) | 0x0101_0101_0101_0101 | (0x0101_0101_0101_0101 << 7);
    let inner = bit(19) | bit(45);
    assert_eq!(get_rook_attacks(&t, 35, inner), get_rook_attacks(&t, 35, inner | edges));
    assert_eq!(get_bishop_attacks(&t, 35, inner), get_bishop_attacks(&t, 35, inner | edges));
}
