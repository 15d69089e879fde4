//! Building the magic-indexed attack tables of the sliders square by square.
use vstd::prelude::*;
use vstd::arithmetic::power2::pow2;
use vstd::bits::lemma_u64_shl_is_mul;
use crate::bits::{has_bit, popcount, lemma_popcount_le_64, lowest, clear_low, lemma_lowest, lemma_bits_empty, lemma_bit_and, lemma_bit_not, lemma_bit_or, lemma_bit_single, lemma_bit_zero};
use crate::piececonstants::{ROOKMAGICNUMBERS, BISHOPMAGICNUMBERS, magic_slot, slider_bb, slider_mask_bb, lemma_slot_bound, lemma_pow2_le_4096, fill_segment, lemma_segment_extend, segment_ok, magic_sound};
use crate::geometry::{rook_mask_bb, bishop_mask_bb};
use crate::pieceinit::{deposit, extract, lemma_deposit_extract, lemma_extract_bound, lemma_clear_low_bits, set_occupancy, mask_rook_attacks, mask_bishop_attacks, rook_attacks_on_fly, bishop_attacks_on_fly};

verus! {

/// Width of the magic index of a rook on each square.
pub const ROOKBITS: [u64; 64] = [
    12, 11, 11, 11, 11, 11, 11, 12, 11, 10, 10, 10, 10, 10, 10, 11, 11, 10, 10, 10, 10, 10, 10, 11,
    11, 10, 10, 10, 10, 10, 10, 11, 11, 10, 10, 10, 10, 10, 10, 11, 11, 10, 10, 10, 10, 10, 10, 11,
    11, 10, 10, 10, 10, 10, 10, 11, 12, 11, 11, 11, 11, 11, 11, 12,
];

/// Width of the magic index of a bishop on each square.
pub const BISHOPBITS: [u64; 64] = [
    6, 5, 5, 5, 5, 5, 5, 6, 5, 5, 5, 5, 5, 5, 5, 5, 5, 5, 7, 7, 7, 7, 5, 5, 5, 5, 7, 9, 9, 7, 5, 5,
    5, 5, 7, 9, 9, 7, 5, 5, 5, 5, 7, 7, 7, 7, 5, 5, 5, 5, 5, 5, 5, 5, 5, 5, 6, 5, 5, 5, 5, 5, 5, 6,
];

pub open spec fn spec_magic(rook: bool, sq: int) -> u64 {
    if rook {
        ROOKMAGICNUMBERS[sq]
    } else {
        BISHOPMAGICNUMBERS[sq]
    }
}

pub open spec fn spec_bits(rook: bool, sq: int) -> u64 {
    if rook {
        ROOKBITS[sq]
    } else {
        BISHOPBITS[sq]
    }
}

/// The slot of occupancy `occ` of the slider on `sq`.
pub open spec fn slot_of(rook: bool, sq: int, occ: u64) -> int {
    magic_slot(occ, spec_magic(rook, sq), spec_bits(rook, sq))
}

/// Any two occupancies of the mask of the slider on `sq` that share a slot give the same
/// attacks.
pub open spec fn magic_consistent(rook: bool, sq: int) -> bool {
    let mask = slider_mask_bb(rook, sq);
    forall|a: u64, b: u64|
        (a & !mask) == 0 && (b & !mask) == 0 && #[trigger] slot_of(rook, sq, a) == #[trigger] slot_of(
            rook,
            sq,
            b,
        ) ==> slider_bb(rook, sq, a) == slider_bb(rook, sq, b)
}

/// Every occupancy of the mask of the slider on `sq` finds its attacks at its slot of `row`,
/// when the mask has at most 12 squares and the magic number is consistent.
pub open spec fn row_ok(row: Seq<u64>, rook: bool, sq: int) -> bool {
    let mask = slider_mask_bb(rook, sq);
    popcount(mask) <= 12 && magic_consistent(rook, sq) ==> forall|occ: u64|
        (occ & !mask) == 0 ==> row[#[trigger] slot_of(rook, sq, occ)] == slider_bb(rook, sq, occ)
}

proof fn lemma_bits_range(sq: int)
    requires
        0 <= sq < 64,
    ensures
        1 <= ROOKBITS[sq] <= 12,
        1 <= BISHOPBITS[sq] <= 9,
{
}

/// The subsets that `deposit` lists lie inside the mask.
proof fn lemma_deposit_subset(idx: nat, mask: u64)
    ensures
        deposit(idx, mask) & !mask == 0,
    decreases mask,
{
    if mask == 0 {
        crate::bits::lemma_u64_laws(0, 0, 0);
    } else {
        lemma_lowest(mask);
        let l = lowest(mask);
        let c = clear_low(mask);
        lemma_deposit_subset(idx / 2, c);
        let d = deposit(idx, mask);
        let part = if idx % 2 == 1 {
            crate::bits::single(l)
        } else {
            0u64
        };
        assert(d == part | deposit(idx / 2, c));
        assert forall|t: u64| t < 64 implies !#[trigger] has_bit(d & !mask, t) by {
            lemma_bit_and(d, !mask, t);
            lemma_bit_not(mask, t);
            lemma_bit_or(part, deposit(idx / 2, c), t);
            lemma_bit_single(l, t);
            lemma_bit_zero(t);
            lemma_bit_and(deposit(idx / 2, c), !c, t);
            lemma_bit_not(c, t);
            lemma_clear_low_bits(mask, t);
        }
        lemma_bits_empty(d & !mask);
    }
}

/// The attack row of the slider on `square`, `size` entries long: each occupancy of its mask,
/// in the order `set_occupancy` lists them, writes its attacks at its slot.
fn slider_row(square: usize, rook: bool, size: usize) -> (row: Vec<u64>)
    requires
        square < 64,
        size == (if rook { 4096usize } else { 512usize }),
    ensures
        row@.len() == size,
        row_ok(row@, rook, square as int),
{
    let ghost sq = square as int;
    proof {
        lemma_bits_range(sq);
    }
    let mask = if rook { mask_rook_attacks(square as i8) } else { mask_bishop_attacks(square as i8) };
    let magic = if rook { ROOKMAGICNUMBERS[square] } else { BISHOPMAGICNUMBERS[square] };
    let bits = if rook { ROOKBITS[square] } else { BISHOPBITS[square] };
    let mut row = vec![0u64; size];
    let count = mask.count_ones();
    if count > 12 {
        return row;
    }
    proof {
        lemma_pow2_le_4096(count as u64);
        vstd::bits::lemma_u64_pow2_no_overflow(count as nat);
        lemma_u64_shl_is_mul(1u64, count as u64);
        lemma_pow2_le_4096(bits);
        if !rook {
            lemma_pow2_small(bits);
        }
    }
    let n = (1u64 << (count as u64)) as usize;
    assert(n as nat == pow2(popcount(mask)));
    let mut index: usize = 0;
    while index < n
        invariant
            square < 64,
            sq == square as int,
            mask == slider_mask_bb(rook, sq),
            magic == spec_magic(rook, sq),
            bits == spec_bits(rook, sq),
            1 <= bits <= 12,
            rook ==> bits <= 12 && size == 4096,
            !rook ==> bits <= 9 && size == 512,
            pow2(bits as nat) <= size,
            row@.len() == size,
            index <= n,
            n <= 4096,
            magic_consistent(rook, sq) ==> forall|j: int|
                0 <= j < index ==> row@[#[trigger] slot_of(rook, sq, deposit(j as nat, mask))]
                    == slider_bb(rook, sq, deposit(j as nat, mask)),
        decreases n - index,
    {
        let occupancy = set_occupancy(index, mask);
        let slot = (occupancy.wrapping_mul(magic) >> (64 - bits)) as usize;
        proof {
            lemma_slot_bound(occupancy, magic, bits);
            if !rook {
                lemma_pow2_small(bits);
            }
        }
        let value = if rook {
            rook_attacks_on_fly(square as i8, occupancy)
        } else {
            bishop_attacks_on_fly(square as i8, occupancy)
        };
        let ghost before = row@;
        row.set(slot, value);
        proof {
            if magic_consistent(rook, sq) {
                assert forall|j: int| 0 <= j < index + 1 implies row@[#[trigger] slot_of(rook, sq, deposit(j as nat, mask))]
                    == slider_bb(rook, sq, deposit(j as nat, mask)) by {
                    let occ_j = deposit(j as nat, mask);
                    lemma_deposit_subset(j as nat, mask);
                    lemma_deposit_subset(index as nat, mask);
                    lemma_slot_bound(occ_j, magic, bits);
                    if j < index && slot_of(rook, sq, occ_j) != slot as int {
                        assert(row@[slot_of(rook, sq, occ_j)] == before[slot_of(rook, sq, occ_j)]);
                    } else if j < index {
                        assert(slot_of(rook, sq, occ_j) == slot_of(rook, sq, occupancy));
                    }
                }
            }
        }
        index = index + 1;
    }
    proof {
        if magic_consistent(rook, sq) {
            assert forall|occ: u64| (occ & !mask) == 0 implies row@[#[trigger] slot_of(rook, sq, occ)]
                == slider_bb(rook, sq, occ) by {
                lemma_deposit_extract(occ, mask);
                lemma_extract_bound(occ, mask);
                crate::bits::lemma_u64_laws(occ, mask, 0);
                let k = extract(occ, mask) as int;
                assert(deposit(k as nat, mask) == occ);
            }
        }
    }
    row
}

proof fn lemma_pow2_small(b: u64)
    requires
        b <= 9,
    ensures
        pow2(b as nat) <= 512,
{
    vstd::arithmetic::power2::lemma2_to64();
    if b < 9 {
        vstd::arithmetic::power2::lemma_pow2_strictly_increases(b as nat, 9);
    }
}

/// The rook and bishop attack tables: for each square a row of 4096 (rook) or 512 (bishop)
/// entries, each occupancy of the square's mask written at its magic slot.
pub fn init_slider_attacks() -> (tables: Vec<Vec<Vec<u64>>>)
    ensures
        tables@.len() == 2,
        tables@[0]@.len() == 64,
        tables@[1]@.len() == 64,
        forall|s: int| 0 <= s < 64 ==> (#[trigger] tables@[0]@[s])@.len() == 4096,
        forall|s: int| 0 <= s < 64 ==> (#[trigger] tables@[1]@[s])@.len() == 512,
        forall|s: int| 0 <= s < 64 ==> row_ok((#[trigger] tables@[0]@[s])@, true, s),
        forall|s: int| 0 <= s < 64 ==> row_ok((#[trigger] tables@[1]@[s])@, false, s),
{
    let mut rook_attacks: Vec<Vec<u64>> = Vec::new();
    let mut bishop_attacks: Vec<Vec<u64>> = Vec::new();
    let mut square: usize = 0;
    while square < 64
        invariant
            square <= 64,
            rook_attacks@.len() == square,
            bishop_attacks@.len() == square,
            forall|s: int| 0 <= s < square ==> (#[trigger] rook_attacks@[s])@.len() == 4096,
            forall|s: int| 0 <= s < square ==> (#[trigger] bishop_attacks@[s])@.len() == 512,
            forall|s: int| 0 <= s < square ==> row_ok((#[trigger] rook_attacks@[s])@, true, s),
            forall|s: int| 0 <= s < square ==> row_ok((#[trigger] bishop_attacks@[s])@, false, s),
        decreases 64 - square,
    {
        bishop_attacks.push(slider_row(square, false, 512));
        rook_attacks.push(slider_row(square, true, 4096));
        square = square + 1;
    }
    let mut tables: Vec<Vec<Vec<u64>>> = Vec::new();
    tables.push(rook_attacks);
    tables.push(bishop_attacks);
    tables
}

/// The index width of the slider on `sq`: the number of squares of its mask.
pub open spec fn seg_bits(rook: bool, sq: int) -> u64 {
    popcount(slider_mask_bb(rook, sq)) as u64
}

/// The number of entries of the slider on `sq`: one for each slot of its index, none when
/// the mask is empty or wider than 12 squares.
pub open spec fn seg_size(rook: bool, sq: int) -> int {
    let c = popcount(slider_mask_bb(rook, sq));
    if 1 <= c <= 12 {
        pow2(c) as int
    } else {
        0
    }
}

/// The rook and bishop attacks of every square in one list, each at its magic slot: the rook
/// entries of a square begin at its rook pointer, its bishop entries right after them, and
/// the next square's rook entries right after those. Where a magic number sends two
/// occupancies with different attacks to one slot (`magic_sound` fails), the segment is not
/// said to hold the attacks.
pub fn init_slider_attacks2() -> (r: (Vec<u64>, Vec<usize>, Vec<usize>))
    ensures
        r.1@.len() == 65,
        r.2@.len() == 65,
        r.1@[0] == 0,
        r.2@[64] == 0,
        r.0@.len() == r.1@[64],
        forall|s: int|
            0 <= s < 64 ==> (#[trigger] r.2@[s]) as int == r.1@[s] + seg_size(true, s) && r.1@[s + 1] as int
                == r.2@[s] + seg_size(false, s),
        forall|s: int|
            0 <= s < 64 && seg_size(true, s) > 0 && magic_sound(
                rook_mask_bb(s),
                seg_bits(true, s),
                ROOKMAGICNUMBERS[s],
                s,
                true,
            ) ==> #[trigger] segment_ok(
                r.0@,
                r.1@[s] as int,
                rook_mask_bb(s),
                seg_bits(true, s),
                ROOKMAGICNUMBERS[s],
                s,
                true,
            ),
        forall|s: int|
            0 <= s < 64 && seg_size(false, s) > 0 && magic_sound(
                bishop_mask_bb(s),
                seg_bits(false, s),
                BISHOPMAGICNUMBERS[s],
                s,
                false,
            ) ==> #[trigger] segment_ok(
                r.0@,
                r.2@[s] as int,
                bishop_mask_bb(s),
                seg_bits(false, s),
                BISHOPMAGICNUMBERS[s],
                s,
                false,
            ),
{
    let mut slider_attacks: Vec<u64> = Vec::new();
    let mut rook_pointers: Vec<usize> = vec![0usize; 65];
    let mut bishop_pointers: Vec<usize> = vec![0usize; 65];
    let mut square: usize = 0;
    while square < 64
        invariant
            square <= 64,
            rook_pointers@.len() == 65,
            bishop_pointers@.len() == 65,
            rook_pointers@[0] == 0,
            slider_attacks@.len() == rook_pointers@[square as int],
            slider_attacks@.len() <= square * 8192,
            forall|s: int|
                0 <= s < square ==> (#[trigger] bishop_pointers@[s]) as int == rook_pointers@[s] + seg_size(true, s)
                    && rook_pointers@[s + 1] as int == bishop_pointers@[s] + seg_size(false, s),
            forall|s: int| square <= s <= 64 ==> (#[trigger] bishop_pointers@[s]) == 0,
            forall|s: int|
                0 <= s < square && seg_size(true, s) > 0 && magic_sound(
                    rook_mask_bb(s),
                    seg_bits(true, s),
                    ROOKMAGICNUMBERS[s],
                    s,
                    true,
                ) ==> #[trigger] segment_ok(
                    slider_attacks@,
                    rook_pointers@[s] as int,
                    rook_mask_bb(s),
                    seg_bits(true, s),
                    ROOKMAGICNUMBERS[s],
                    s,
                    true,
                ),
            forall|s: int|
                0 <= s < square && seg_size(false, s) > 0 && magic_sound(
                    bishop_mask_bb(s),
                    seg_bits(false, s),
                    BISHOPMAGICNUMBERS[s],
                    s,
                    false,
                ) ==> #[trigger] segment_ok(
                    slider_attacks@,
                    bishop_pointers@[s] as int,
                    bishop_mask_bb(s),
                    seg_bits(false, s),
                    BISHOPMAGICNUMBERS[s],
                    s,
                    false,
                ),
        decreases 64 - square,
    {
        let ghost sq = square as int;
        let ghost a0 = slider_attacks@;
        let ghost rp0 = rook_pointers@;
        let ghost bp0 = bishop_pointers@;
        let rmask = mask_rook_attacks(square as i8);
        let rbits = rmask.count_ones() as u64;
        proof {
            lemma_popcount_le_64(rmask);
        }
        if 1 <= rbits && rbits <= 12 {
            proof {
                lemma_pow2_le_4096(rbits);
            }
            let _ = fill_segment(&mut slider_attacks, square as i8, rmask, rbits, ROOKMAGICNUMBERS[square], true);
        }
        let ghost a1 = slider_attacks@;
        let bp = slider_attacks.len();
        bishop_pointers.set(square, bp);
        let bmask = mask_bishop_attacks(square as i8);
        let bbits = bmask.count_ones() as u64;
        proof {
            lemma_popcount_le_64(bmask);
        }
        if 1 <= bbits && bbits <= 12 {
            proof {
                lemma_pow2_le_4096(bbits);
            }
            let _ = fill_segment(&mut slider_attacks, square as i8, bmask, bbits, BISHOPMAGICNUMBERS[square], false);
        }
        rook_pointers.set(square + 1, slider_attacks.len());
        proof {
            assert forall|s: int|
                0 <= s < square + 1 && seg_size(true, s) > 0 && magic_sound(
                    rook_mask_bb(s),
                    seg_bits(true, s),
                    ROOKMAGICNUMBERS[s],
                    s,
                    true,
                ) implies #[trigger] segment_ok(
                    slider_attacks@,
                    rook_pointers@[s] as int,
                    rook_mask_bb(s),
                    seg_bits(true, s),
                    ROOKMAGICNUMBERS[s],
                    s,
                    true,
                ) by {
                if s < sq {
                    assert(segment_ok(a0, rp0[s] as int, rook_mask_bb(s), seg_bits(true, s), ROOKMAGICNUMBERS[s], s, true));
                    lemma_segment_extend(a0, a1, rp0[s] as int, rook_mask_bb(s), seg_bits(true, s), ROOKMAGICNUMBERS[s], s, true);
                }
                lemma_segment_extend(a1, slider_attacks@, rook_pointers@[s] as int, rook_mask_bb(s), seg_bits(true, s), ROOKMAGICNUMBERS[s], s, true);
            }
            assert forall|s: int|
                0 <= s < square + 1 && seg_size(false, s) > 0 && magic_sound(
                    bishop_mask_bb(s),
                    seg_bits(false, s),
                    BISHOPMAGICNUMBERS[s],
                    s,
                    false,
                ) implies #[trigger] segment_ok(
                    slider_attacks@,
                    bishop_pointers@[s] as int,
                    bishop_mask_bb(s),
                    seg_bits(false, s),
                    BISHOPMAGICNUMBERS[s],
                    s,
                    false,
                ) by {
                if s < sq {
                    assert(segment_ok(a0, bp0[s] as int, bishop_mask_bb(s), seg_bits(false, s), BISHOPMAGICNUMBERS[s], s, false));
                    lemma_segment_extend(a0, a1, bp0[s] as int, bishop_mask_bb(s), seg_bits(false, s), BISHOPMAGICNUMBERS[s], s, false);
                    lemma_segment_extend(a1, slider_attacks@, bp0[s] as int, bishop_mask_bb(s), seg_bits(false, s), BISHOPMAGICNUMBERS[s], s, false);
                }
            }
        }
        square = square + 1;
    }
    (slider_attacks, rook_pointers, bishop_pointers)
}

/// `rand::random::<u64>()`: a number from the thread's generator. It depends on chance;
/// nothing is stated.
#[verifier::external_body]
fn random_u64() -> u64 {
    rand::random::<u64>()
}

/// A random number with few set bits: three random numbers and-ed together.
fn get_random_number() -> u64 {
    let x = random_u64();
    let y = random_u64();
    let z = random_u64();
    x & y & z
}

/// The candidate `magic` sends every two listed occupancies with nonzero attacks and one
/// slot to equal attacks.
pub open spec fn magic_works(occs: Seq<u64>, attacks: Seq<u64>, magic: u64, bits: u64, n: int) -> bool {
    forall|i: int, j: int|
        0 <= i < n && 0 <= j < n && #[trigger] magic_slot(occs[i], magic, bits) == #[trigger] magic_slot(
            occs[j],
            magic,
            bits,
        ) && attacks[i] != 0 && attacks[j] != 0 ==> attacks[i] == attacks[j]
}

/// The test that `test_magic` makes on the first `n` listed occupancies: an occupancy that
/// `magic` sends to the slot of an earlier one with nonzero attacks has those attacks.
pub open spec fn magic_passes(occs: Seq<u64>, attacks: Seq<u64>, magic: u64, bits: u64, n: int) -> bool {
    forall|i: int, j: int|
        0 <= j < i < n && #[trigger] magic_slot(occs[i], magic, bits) == #[trigger] magic_slot(
            occs[j],
            magic,
            bits,
        ) && attacks[j] != 0 ==> attacks[i] == attacks[j]
}

/// What the slots hold after the first `k` listed occupancies were entered: a nonzero entry
/// is the attacks of an occupancy entered there, and the occupancies with nonzero attacks
/// entered at a slot all hold that entry.
spec fn used_ok(used: Seq<u64>, occs: Seq<u64>, attacks: Seq<u64>, magic: u64, bits: u64, k: int) -> bool {
    &&& forall|i: int|
        0 <= i < k && attacks[i] != 0 ==> used[#[trigger] magic_slot(occs[i], magic, bits)] == attacks[i]
    &&& forall|i: int|
        0 <= i < k ==> used[#[trigger] magic_slot(occs[i], magic, bits)] != 0 || attacks[i] == 0
}

/// Whether `magic` passes the test of `find_magic_number` on the first `n` occupancies.
fn test_magic(occupancies: &Vec<u64>, attacks: &Vec<u64>, magic: u64, bits: u64, n: usize) -> (ok: bool)
    requires
        1 <= bits <= 12,
        n <= occupancies@.len(),
        n <= attacks@.len(),
    ensures
        ok == magic_passes(occupancies@, attacks@, magic, bits, n as int),
        ok ==> magic_works(occupancies@, attacks@, magic, bits, n as int),
{
    let mut used = vec![0u64; 4096];
    let mut index: usize = 0;
    proof {
        crate::piececonstants::lemma_pow2_le_4096(bits);
    }
    while index < n
        invariant
            1 <= bits <= 12,
            n <= occupancies@.len(),
            n <= attacks@.len(),
            pow2(bits as nat) <= 4096,
            used@.len() == 4096,
            index <= n,
            used_ok(used@, occupancies@, attacks@, magic, bits, index as int),
            magic_works(occupancies@, attacks@, magic, bits, index as int),
            magic_passes(occupancies@, attacks@, magic, bits, index as int),
            forall|t: int|
                0 <= t < 4096 && #[trigger] used@[t] != 0 ==> exists|j: int|
                    0 <= j < index && #[trigger] magic_slot(occupancies@[j], magic, bits) == t && attacks@[j]
                        == used@[t],
        decreases n - index,
    {
        let occ = occupancies[index];
        let slot = (occ.wrapping_mul(magic) >> (64 - bits)) as usize;
        proof {
            lemma_slot_bound(occ, magic, bits);
        }
        let a = attacks[index];
        if used[slot] == 0 {
            let ghost before = used@;
            used.set(slot, a);
            proof {
                assert forall|i: int| 0 <= i < index + 1 && attacks@[i] != 0 implies used@[#[trigger] magic_slot(occupancies@[i], magic, bits)] == attacks@[i] by {
                    lemma_slot_bound(occupancies@[i], magic, bits);
                }
                assert forall|i: int| 0 <= i < index + 1 implies used@[#[trigger] magic_slot(occupancies@[i], magic, bits)] != 0 || attacks@[i] == 0 by {
                    lemma_slot_bound(occupancies@[i], magic, bits);
                }
                assert forall|t: int|
                    0 <= t < 4096 && #[trigger] used@[t] != 0 implies exists|j: int|
                        0 <= j < index + 1 && #[trigger] magic_slot(occupancies@[j], magic, bits) == t && attacks@[j]
                            == used@[t] by {
                    if t == slot as int {
                        let w = index as int;
                        assert(magic_slot(occupancies@[w], magic, bits) == t && attacks@[w] == used@[t]);
                    } else {
                        assert(before[t] != 0);
                        let w = choose|j: int|
                            0 <= j < index && #[trigger] magic_slot(occupancies@[j], magic, bits) == t && attacks@[j]
                                == before[t];
                        assert(0 <= w < index + 1 && magic_slot(occupancies@[w], magic, bits) == t && attacks@[w] == used@[t]);
                    }
                }
            }
        } else if used[slot] != a {
            proof {
                let t = slot as int;
                assert(used@[t] != 0);
                let j = choose|j: int|
                    0 <= j < index && #[trigger] magic_slot(occupancies@[j], magic, bits) == t && attacks@[j] == used@[t];
                let i = index as int;
                assert(magic_slot(occupancies@[i], magic, bits) == magic_slot(occupancies@[j], magic, bits));
                assert(!magic_passes(occupancies@, attacks@, magic, bits, n as int));
            }
            return false;
        }
        proof {
            assert forall|i: int, j: int|
                0 <= i < index + 1 && 0 <= j < index + 1 && #[trigger] magic_slot(occupancies@[i], magic, bits)
                    == #[trigger] magic_slot(occupancies@[j], magic, bits) && attacks@[i] != 0 && attacks@[j] != 0
                implies attacks@[i] == attacks@[j] by {
                lemma_slot_bound(occupancies@[i], magic, bits);
                lemma_slot_bound(occupancies@[j], magic, bits);
            }
            assert forall|i: int, j: int|
                0 <= j < i < index + 1 && #[trigger] magic_slot(occupancies@[i], magic, bits)
                    == #[trigger] magic_slot(occupancies@[j], magic, bits) && attacks@[j] != 0
                implies attacks@[i] == attacks@[j] by {
                lemma_slot_bound(occupancies@[i], magic, bits);
                lemma_slot_bound(occupancies@[j], magic, bits);
            }
        }
        index = index + 1;
    }
    true
}

/// Searches random sparse numbers for a magic number of the slider on `square` with an
/// index of `relevant_bits` bits: one that maps the occupancies of the mask with different
/// attacks to different slots. Candidates that leave fewer than six bits in the top byte
/// of the mask's product are skipped. Returns 0 when none is found among a hundred
/// million candidates.
pub fn find_magic_number(square: i8, relevant_bits: u64, bishop: bool) -> (magic: u64)
    requires
        0 <= square < 64,
        1 <= relevant_bits <= 12,
    ensures
        magic != 0 ==> ({
            let mask = slider_mask_bb(!bishop, square as int);
            &&& popcount(mask.wrapping_mul(magic) & 0xFF00000000000000u64) >= 6
            &&& forall|i: int, j: int|
                0 <= i < pow2(relevant_bits as nat) && 0 <= j < pow2(relevant_bits as nat)
                    && #[trigger] magic_slot(deposit(i as nat, mask), magic, relevant_bits)
                    == #[trigger] magic_slot(deposit(j as nat, mask), magic, relevant_bits)
                    && slider_bb(!bishop, square as int, deposit(i as nat, mask)) != 0
                    && slider_bb(!bishop, square as int, deposit(j as nat, mask)) != 0
                    ==> slider_bb(!bishop, square as int, deposit(i as nat, mask)) == slider_bb(
                    !bishop,
                    square as int,
                    deposit(j as nat, mask),
                )
        }),
{
    let ghost sq = square as int;
    let attack_mask = if bishop { mask_bishop_attacks(square) } else { mask_rook_attacks(square) };
    proof {
        lemma_pow2_le_4096(relevant_bits);
        vstd::bits::lemma_u64_pow2_no_overflow(relevant_bits as nat);
        lemma_u64_shl_is_mul(1u64, relevant_bits);
    }
    let occupancy_indicies = (1u64 << relevant_bits) as usize;
    let mut occupancies: Vec<u64> = Vec::new();
    let mut attacks: Vec<u64> = Vec::new();
    let mut index: usize = 0;
    while index < occupancy_indicies
        invariant
            0 <= square < 64,
            sq == square as int,
            attack_mask == slider_mask_bb(!bishop, sq),
            occupancy_indicies as nat == pow2(relevant_bits as nat),
            occupancy_indicies <= 4096,
            index <= occupancy_indicies,
            occupancies@.len() == index,
            attacks@.len() == index,
            forall|k: int| 0 <= k < index ==> #[trigger] occupancies@[k] == deposit(k as nat, attack_mask),
            forall|k: int| 0 <= k < index ==> #[trigger] attacks@[k] == slider_bb(!bishop, sq, deposit(k as nat, attack_mask)),
        decreases occupancy_indicies - index,
    {
        let occ = set_occupancy(index, attack_mask);
        occupancies.push(occ);
        let a = if bishop { bishop_attacks_on_fly(square, occ) } else { rook_attacks_on_fly(square, occ) };
        attacks.push(a);
        index = index + 1;
    }
    let mut tries: u64 = 0;
    while tries < 100000000
        invariant
            sq == square as int,
            occupancies@.len() == occupancy_indicies,
            attacks@.len() == occupancy_indicies,
            1 <= relevant_bits <= 12,
            occupancy_indicies as nat == pow2(relevant_bits as nat),
            attack_mask == slider_mask_bb(!bishop, sq),
            forall|k: int| 0 <= k < occupancy_indicies ==> #[trigger] occupancies@[k] == deposit(k as nat, attack_mask),
            forall|k: int| 0 <= k < occupancy_indicies ==> #[trigger] attacks@[k] == slider_bb(!bishop, sq, deposit(k as nat, attack_mask)),
        decreases 100000000 - tries,
    {
        tries = tries + 1;
        let magic_number = get_random_number();
        if (attack_mask.wrapping_mul(magic_number) & 0xFF00000000000000).count_ones() < 6 {
            continue;
        }
        if test_magic(&occupancies, &attacks, magic_number, relevant_bits, occupancy_indicies) {
            proof {
                assert forall|i: int, j: int|
                    0 <= i < pow2(relevant_bits as nat) && 0 <= j < pow2(relevant_bits as nat)
                        && #[trigger] magic_slot(deposit(i as nat, attack_mask), magic_number, relevant_bits)
                        == #[trigger] magic_slot(deposit(j as nat, attack_mask), magic_number, relevant_bits)
                        && slider_bb(!bishop, sq, deposit(i as nat, attack_mask)) != 0
                        && slider_bb(!bishop, sq, deposit(j as nat, attack_mask)) != 0
                    implies slider_bb(!bishop, sq, deposit(i as nat, attack_mask)) == slider_bb(!bishop, sq, deposit(j as nat, attack_mask)) by {
                    assert(occupancies@[i] == deposit(i as nat, attack_mask));
                    assert(occupancies@[j] == deposit(j as nat, attack_mask));
                    assert(magic_slot(occupancies@[i], magic_number, relevant_bits) == magic_slot(occupancies@[j], magic_number, relevant_bits));
                    assert(attacks@[i] == slider_bb(!bishop, sq, deposit(i as nat, attack_mask)));
                    assert(attacks@[j] == slider_bb(!bishop, sq, deposit(j as nat, attack_mask)));
                }
            }
            return magic_number;
        }
    }
    0
}

} // verus!
