//! Piece and square names, magic numbers, and the attack tables with their lookups.
#![allow(non_camel_case_types)]
use vstd::prelude::*;
use vstd::arithmetic::power2::{pow2, lemma_pow2_pos};
use vstd::bits::lemma_u64_shl_is_mul;
use crate::bits::{has_bit, popcount, lemma_popcount_le_64};
use crate::geometry::{queen_bb, lemma_rook_relevant_only, lemma_bishop_relevant_only, knight_bb, king_bb, pawn_bb, rook_bb, bishop_bb, rook_mask_bb, bishop_mask_bb};
use crate::pieceinit::{
    deposit, extract, lemma_deposit_extract, lemma_extract_bound, set_occupancy,
    mask_rook_attacks, mask_bishop_attacks, rook_attacks_on_fly, bishop_attacks_on_fly,
    init_pawn_attacks, init_knight_attacks, init_king_attacks,
};


verus! {

pub enum Color {
    WHITE,
    BLACK,
}

pub enum Rook_Bishop {
    ROOK,
    BISHOP,
}

/// Castling rights; each right is one bit of a board's `castle` field.
pub enum Castling {
    Wk,
    Wq,
    Bk,
    Bq,
}

impl Castling {
    /// The bit of this right in a board's `castle` field.
    pub fn bit(&self) -> (b: u8)
        ensures
            b == (match self {
                Castling::Wk => 1u8,
                Castling::Wq => 2u8,
                Castling::Bk => 4u8,
                Castling::Bq => 8u8,
            }),
    {
        match self {
            Castling::Wk => 1,
            Castling::Wq => 2,
            Castling::Bk => 4,
            Castling::Bq => 8,
        }
    }
}

/// The castling rights that survive a move from or to `square`: a move touching a king or
/// rook home square removes the rights that need that piece.
pub open spec fn spec_castling_rights(square: int) -> u8 {
    if square == 0 {
        7
    } else if square == 4 {
        3
    } else if square == 7 {
        11
    } else if square == 56 {
        13
    } else if square == 60 {
        12
    } else if square == 63 {
        14
    } else {
        15
    }
}

pub fn castling_rights(square: usize) -> (r: u8)
    ensures
        r == spec_castling_rights(square as int),
{
    if square == 0 {
        7
    } else if square == 4 {
        3
    } else if square == 7 {
        11
    } else if square == 56 {
        13
    } else if square == 60 {
        12
    } else if square == 63 {
        14
    } else {
        15
    }
}

/// Piece kinds in the order of a board's bitboards: white P N B R Q K, then black p n b r q k.
#[allow(non_snake_case)]
pub enum Pieces {
    P,
    N,
    B,
    R,
    Q,
    K,
    p,
    n,
    b,
    r,
    q,
    k,
}

/// Square names in index order, a8 first; `NOSQ` names no square.
pub enum Square {
    A8, B8, C8, D8, E8, F8, G8, H8,
    A7, B7, C7, D7, E7, F7, G7, H7,
    A6, B6, C6, D6, E6, F6, G6, H6,
    A5, B5, C5, D5, E5, F5, G5, H5,
    A4, B4, C4, D4, E4, F4, G4, H4,
    A3, B3, C3, D3, E3, F3, G3, H3,
    A2, B2, C2, D2, E2, F2, G2, H2,
    A1, B1, C1, D1, E1, F1, G1, H1,
    NOSQ,
}

pub const BISHOPMAGICNUMBERS: [u64; 64] = [
    0x82080801040020, 0x4010010214204020, 0x810A10200202020, 0x484040090081044,
    0x8604242020280108, 0x108900420000000, 0x8402010160102404, 0x2203404404202280,
    0x2030382808280050, 0x4084C424481E0028, 0x800041400860480, 0x40020A0208000C,
    0x3181A20210A10004, 0x11008040404, 0xA01010108200400, 0x1000004124012000,
    0x222001002820800, 0xC7000200410C283, 0x1004082080200A, 0x4402005040104100,
    0x103000811400200, 0x242860100A000, 0xC210488A100230, 0x828A000100808440,
    0x50884024004080C, 0x8381042660800, 0x1880900080AC104, 0x8002002008008120,
    0x8010840000802000, 0x2112120000480A08, 0x3000810008880800, 0x4810404002110C21,
    0x208080454082020, 0x41AC026000080100, 0x40A0101080840, 0x140020080080080,
    0x40004100481100, 0x401010A00210044, 0x10224240048400, 0xC02008100220050,
    0x8010880410004040, 0x842420110280, 0x20200220C0400, 0x80202218012400,
    0x8080104004042, 0x11210020E208200, 0x204283801022042, 0x21C0042000088,
    0x580208A00040, 0x8220208410080000, 0x4082002C02080200, 0x6021010041108004,
    0x404802060410802, 0x100104408082210, 0x2012100A08124000, 0x8082042404104600,
    0x14210440404406E, 0xC4400A80904, 0x20424A4608D000, 0x4C102200020D1400,
    0x301A80004050402, 0x1080924284682080, 0x91409001024880, 0x60080A08005412,
];

pub const ROOKMAGICNUMBERS: [u64; 64] = [
    0x1080002080400010, 0x40004020001000, 0x10020010040100A, 0x1000421000A1000,
    0xA002004020010C8, 0x200080200041001, 0x1080008002002100, 0x10010204100008E,
    0x28001A280C004, 0x4001002040011080, 0x420802000100082, 0xA0808008001000,
    0x20800800040080, 0x14804400800200, 0x8004008208011004, 0x4000801D00006180,
    0x1680004000200048, 0x40048020008040, 0x4020818010002004, 0x5080848010008800,
    0x800808004000802, 0x80D0808002000400, 0xE0040001080210, 0x80220000408421,
    0x1000400180006080, 0x810024440002000, 0x80F0018280200210, 0x8002011200204208,
    0x400040080080080, 0x12000200081004, 0x1020400881001, 0x141048A00041241,
    0x900080C001800022, 0x804000802000, 0x90080020200400, 0x320100021000900,
    0x80110005000800, 0x3034004100400200, 0x821024004108, 0x9001408406000041,
    0x3208140028004, 0x50002004424000, 0x3201600102B10040, 0x200010400A020021,
    0x85000800050010, 0x40002008080, 0x8400010002008080, 0x2001010040820004,
    0x8000800041002100, 0x1900902100400100, 0x222700020008280, 0x888009001800880,
    0x100800800040080, 0x4292000400800280, 0x4008023110388400, 0x840010040940200,
    0x2400800010250841, 0x40050010238141, 0x1000090040102001, 0x2082100041001,
    0x12020004A1081002, 0x8901000804000201, 0x4008210280104, 0x200002400410082,
];


/// The table slot of an occupancy for a given magic number and index width.
pub open spec fn magic_slot(occ: u64, magic: u64, bits: u64) -> int {
    (occ.wrapping_mul(magic) >> (64 - bits) as u64) as int
}

pub open spec fn slider_bb(rook: bool, sq: int, occ: u64) -> u64 {
    if rook {
        rook_bb(sq, occ)
    } else {
        bishop_bb(sq, occ)
    }
}

pub open spec fn slider_mask_bb(rook: bool, sq: int) -> u64 {
    if rook {
        rook_mask_bb(sq)
    } else {
        bishop_mask_bb(sq)
    }
}

/// The `2^bits` entries of `attacks` from `ptr` on hold, at the magic slot of every subset
/// of `mask`, the attacks of the slider on `sq` for that occupancy.
pub open spec fn segment_ok(
    attacks: Seq<u64>,
    ptr: int,
    mask: u64,
    bits: u64,
    magic: u64,
    sq: int,
    rook: bool,
) -> bool {
    &&& 1 <= bits <= 12
    &&& 0 <= ptr
    &&& ptr + pow2(bits as nat) <= attacks.len()
    &&& forall|occ: u64|
        (occ & !mask) == 0 ==> attacks[ptr + #[trigger] magic_slot(occ, magic, bits)]
            == slider_bb(rook, sq, occ)
}

/// No two subsets of `mask`, taken by their index below `2^bits`, that `magic` sends to
/// one slot have different attacks of the slider on `sq`.
pub open spec fn magic_sound(mask: u64, bits: u64, magic: u64, sq: int, rook: bool) -> bool {
    forall|i: nat, j: nat|
        i < pow2(bits as nat) && j < pow2(bits as nat) && #[trigger] magic_slot(deposit(i, mask), magic, bits)
            == #[trigger] magic_slot(deposit(j, mask), magic, bits) ==> slider_bb(rook, sq, deposit(i, mask))
            == slider_bb(rook, sq, deposit(j, mask))
}

/// Both slider masks of `s` have between 1 and 12 squares, and both magic numbers of `s`
/// are sound for them.
pub open spec fn square_magics_sound(s: int) -> bool {
    let rm = rook_mask_bb(s);
    let bm = bishop_mask_bb(s);
    &&& 1 <= popcount(rm) <= 12
    &&& magic_sound(rm, popcount(rm) as u64, ROOKMAGICNUMBERS[s], s, true)
    &&& 1 <= popcount(bm) <= 12
    &&& magic_sound(bm, popcount(bm) as u64, BISHOPMAGICNUMBERS[s], s, false)
}

/// Every square's magic numbers are sound: what `AttackTables::new` needs to succeed.
pub open spec fn magics_sound() -> bool {
    forall|s: int| 0 <= s < 64 ==> #[trigger] square_magics_sound(s)
}

pub(crate) proof fn lemma_pow2_le_4096(b: u64)
    requires
        b <= 12,
    ensures
        pow2(b as nat) <= 4096,
{
    vstd::arithmetic::power2::lemma2_to64();
    if b < 12 {
        vstd::arithmetic::power2::lemma_pow2_strictly_increases(b as nat, 12);
    }
}

/// A segment stays valid when entries are appended after it.
pub(crate) proof fn lemma_segment_extend(
    a: Seq<u64>,
    b: Seq<u64>,
    ptr: int,
    mask: u64,
    bits: u64,
    magic: u64,
    sq: int,
    rook: bool,
)
    requires
        segment_ok(a, ptr, mask, bits, magic, sq, rook),
        a.len() <= b.len(),
        forall|i: int| 0 <= i < a.len() ==> b[i] == a[i],
    ensures
        segment_ok(b, ptr, mask, bits, magic, sq, rook),
{
    assert forall|occ: u64|
        (occ & !mask) == 0 implies b[ptr + #[trigger] magic_slot(occ, magic, bits)] == slider_bb(
        rook,
        sq,
        occ,
    ) by {
        lemma_slot_bound(occ, magic, bits);
    }
}

pub(crate) proof fn lemma_slot_bound(x: u64, magic: u64, bits: u64)
    requires
        1 <= bits <= 12,
    ensures
        0 <= magic_slot(x, magic, bits) < pow2(bits as nat),
{
    let y = x.wrapping_mul(magic);
    assert(1 <= bits <= 12 ==> (y >> (64 - bits) as u64) < (1u64 << bits)) by (bit_vector);
    vstd::bits::lemma_u64_pow2_no_overflow(bits as nat);
    lemma_u64_shl_is_mul(1u64, bits);
}

/// The `k`-th subset of `mask` has its slot marked and holds its attacks.
spec fn entry_ok(
    attacks: Seq<u64>,
    filled: Seq<bool>,
    ptr: int,
    mask: u64,
    bits: u64,
    magic: u64,
    sq: int,
    rook: bool,
    k: int,
) -> bool {
    let occ = deposit(k as nat, mask);
    &&& filled[magic_slot(occ, magic, bits)]
    &&& attacks[ptr + magic_slot(occ, magic, bits)] == slider_bb(rook, sq, occ)
}

/// Appends the magic-indexed attack segment of the slider on `square` to `attacks`.
/// Returns false when two occupancies with different attacks share a slot.
pub(crate) fn fill_segment(attacks: &mut Vec<u64>, square: i8, mask: u64, bits: u64, magic: u64, rook: bool) -> (ok:
    bool)
    requires
        0 <= square < 64,
        1 <= bits <= 12,
        mask == slider_mask_bb(rook, square as int),
        popcount(mask) == bits,
        old(attacks).len() <= 1_000_000,
    ensures
        final(attacks).len() == old(attacks).len() + pow2(bits as nat),
        forall|i: int| 0 <= i < old(attacks).len() ==> final(attacks)[i] == old(attacks)[i],
        ok ==> segment_ok(
            final(attacks)@,
            old(attacks).len() as int,
            mask,
            bits,
            magic,
            square as int,
            rook,
        ),
        ok == magic_sound(mask, bits, magic, square as int, rook),
{
    let ghost old_attacks = attacks@;
    let ptr = attacks.len();
    proof {
        lemma_pow2_le_4096(bits);
        vstd::bits::lemma_u64_pow2_no_overflow(bits as nat);
        lemma_u64_shl_is_mul(1u64, bits);
    }
    let size64 = 1u64 << bits;
    let size = size64 as usize;
    assert(size as nat == pow2(bits as nat));
    let mut filled: Vec<bool> = Vec::new();
    for i in 0..size
        invariant
            attacks.len() == ptr + i,
            filled.len() == i,
            old_attacks == old(attacks)@,
            ptr == old_attacks.len(),
            forall|j: int| 0 <= j < ptr ==> attacks[j] == old_attacks[j],
            forall|j: int| 0 <= j < i ==> !filled[j],
            size <= 4096,
            ptr <= 1_000_000,
    {
        attacks.push(0);
        filled.push(false);
    }
    let ghost sq = square as int;
    for index in 0..size
        invariant
            attacks.len() == ptr + size,
            filled.len() == size,
            old_attacks == old(attacks)@,
            ptr == old_attacks.len(),
            size as nat == pow2(bits as nat),
            size <= 4096,
            1 <= bits <= 12,
            0 <= square < 64,
            sq == square as int,
            mask == slider_mask_bb(rook, sq),
            forall|j: int| 0 <= j < ptr ==> attacks[j] == old_attacks[j],
            forall|k: int|
                0 <= k < index ==> #[trigger] entry_ok(attacks@, filled@, ptr as int, mask, bits, magic, sq, rook, k),
            forall|j: int|
                0 <= j < size && #[trigger] filled@[j] ==> exists|k: int|
                    0 <= k < index && #[trigger] magic_slot(deposit(k as nat, mask), magic, bits) == j,
    {
        let occupancy = set_occupancy(index, mask);
        let m = (occupancy.wrapping_mul(magic) >> (64 - bits)) as usize;
        proof {
            lemma_slot_bound(occupancy, magic, bits);
        }
        let value = if rook {
            rook_attacks_on_fly(square, occupancy)
        } else {
            bishop_attacks_on_fly(square, occupancy)
        };
        if filled[m] && attacks[ptr + m] != value {
            proof {
                let k = choose|k: int| 0 <= k < index && #[trigger] magic_slot(deposit(k as nat, mask), magic, bits) == m as int;
                assert(entry_ok(attacks@, filled@, ptr as int, mask, bits, magic, sq, rook, k));
                assert(magic_slot(deposit(index as nat, mask), magic, bits) == m as int);
                assert(!magic_sound(mask, bits, magic, sq, rook)) by {
                    let i = k as nat;
                    let j = index as nat;
                    assert(magic_slot(deposit(i, mask), magic, bits) == magic_slot(deposit(j, mask), magic, bits));
                }
            }
            return false;
        }
        let ghost a_old = attacks@;
        let ghost f_old = filled@;
        attacks.set(ptr + m, value);
        filled.set(m, true);
        proof {
            assert forall|k: int| 0 <= k < index + 1 implies #[trigger] entry_ok(attacks@, filled@, ptr as int, mask, bits, magic, sq, rook, k) by {
                let occ = deposit(k as nat, mask);
                lemma_slot_bound(occ, magic, bits);
                if k < index {
                    assert(entry_ok(a_old, f_old, ptr as int, mask, bits, magic, sq, rook, k));
                    if magic_slot(occ, magic, bits) == m as int {
                        assert(f_old[m as int]);
                        assert(a_old[ptr + m] == value);
                    }
                }
            }
            assert forall|j: int| 0 <= j < size && #[trigger] filled@[j] implies exists|k: int|
                0 <= k < index + 1 && #[trigger] magic_slot(deposit(k as nat, mask), magic, bits) == j by {
                if j == m as int {
                    let w = index as int;
                    assert(occupancy == deposit(w as nat, mask));
                    assert(magic_slot(deposit(w as nat, mask), magic, bits) == j);
                } else {
                    assert(f_old[j]);
                    let w = choose|k: int| 0 <= k < index && #[trigger] magic_slot(deposit(k as nat, mask), magic, bits) == j;
                    assert(0 <= w < index + 1 && magic_slot(deposit(w as nat, mask), magic, bits) == j);
                }
            }
        }
    }
    proof {
        assert forall|occ: u64|
            (occ & !mask) == 0 implies attacks@[ptr + #[trigger] magic_slot(occ, magic, bits)]
            == slider_bb(rook, sq, occ) by {
            lemma_deposit_extract(occ, mask);
            lemma_extract_bound(occ, mask);
            crate::bits::lemma_u64_laws(occ, mask, 0);
            let k = extract(occ, mask) as int;
            assert(deposit(k as nat, mask) == occ);
            assert(entry_ok(attacks@, filled@, ptr as int, mask, bits, magic, sq, rook, k));
        }
        assert forall|i: nat, j: nat|
            i < pow2(bits as nat) && j < pow2(bits as nat) && #[trigger] magic_slot(deposit(i, mask), magic, bits)
                == #[trigger] magic_slot(deposit(j, mask), magic, bits) implies slider_bb(rook, sq, deposit(i, mask))
            == slider_bb(rook, sq, deposit(j, mask)) by {
            assert(entry_ok(attacks@, filled@, ptr as int, mask, bits, magic, sq, rook, i as int));
            assert(entry_ok(attacks@, filled@, ptr as int, mask, bits, magic, sq, rook, j as int));
        }
    }
    true
}

/// Attack tables for every piece kind. The sliding-piece attacks are found by magic
/// indexing into `attacks`, one segment per square and slider.
pub struct AttackTables {
    pub pawn: [[u64; 64]; 2],
    pub knight: [u64; 64],
    pub king: [u64; 64],
    pub rook_masks: Vec<u64>,
    pub bishop_masks: Vec<u64>,
    pub rook_bits: Vec<u64>,
    pub bishop_bits: Vec<u64>,
    pub rook_pointers: Vec<usize>,
    pub bishop_pointers: Vec<usize>,
    pub attacks: Vec<u64>,
}

impl AttackTables {
    /// Every table holds the attacks that the geometry of the board gives.
    pub open spec fn wf(&self) -> bool {
        &&& forall|s: int| 0 <= s < 64 ==> #[trigger] self.pawn[0][s] == pawn_bb(0, s)
        &&& forall|s: int| 0 <= s < 64 ==> #[trigger] self.pawn[1][s] == pawn_bb(1, s)
        &&& forall|s: int| 0 <= s < 64 ==> #[trigger] self.knight[s] == knight_bb(s)
        &&& forall|s: int| 0 <= s < 64 ==> #[trigger] self.king[s] == king_bb(s)
        &&& self.rook_masks.len() == 64
        &&& self.bishop_masks.len() == 64
        &&& self.rook_bits.len() == 64
        &&& self.bishop_bits.len() == 64
        &&& self.rook_pointers.len() == 64
        &&& self.bishop_pointers.len() == 64
        &&& forall|s: int| 0 <= s < 64 ==> #[trigger] self.rook_ok(s)
        &&& forall|s: int| 0 <= s < 64 ==> #[trigger] self.bishop_ok(s)
    }

    pub open spec fn rook_ok(&self, s: int) -> bool {
        &&& self.rook_masks[s] == rook_mask_bb(s)
        &&& segment_ok(
            self.attacks@,
            self.rook_pointers[s] as int,
            self.rook_masks[s],
            self.rook_bits[s],
            ROOKMAGICNUMBERS[s],
            s,
            true,
        )
    }

    pub open spec fn bishop_ok(&self, s: int) -> bool {
        &&& self.bishop_masks[s] == bishop_mask_bb(s)
        &&& segment_ok(
            self.attacks@,
            self.bishop_pointers[s] as int,
            self.bishop_masks[s],
            self.bishop_bits[s],
            BISHOPMAGICNUMBERS[s],
            s,
            false,
        )
    }

    /// Builds every table. Returns `None` when a magic number maps two occupancies with
    /// different attacks to one slot, or a mask is empty or too wide for the index.
    pub fn new() -> (res: Option<AttackTables>)
        ensures
            res matches Some(t) ==> t.wf(),
            res is Some <==> magics_sound(),
    {
        let pawn = init_pawn_attacks();
        let knight = init_knight_attacks();
        let king = init_king_attacks();
        let mut rook_masks: Vec<u64> = Vec::new();
        let mut bishop_masks: Vec<u64> = Vec::new();
        let mut rook_bits: Vec<u64> = Vec::new();
        let mut bishop_bits: Vec<u64> = Vec::new();
        let mut rook_pointers: Vec<usize> = Vec::new();
        let mut bishop_pointers: Vec<usize> = Vec::new();
        let mut attacks: Vec<u64> = Vec::new();
        let mut square: usize = 0;
        while square < 64
            invariant
                square <= 64,
                rook_masks.len() == square,
                bishop_masks.len() == square,
                rook_bits.len() == square,
                bishop_bits.len() == square,
                rook_pointers.len() == square,
                bishop_pointers.len() == square,
                attacks.len() <= square * 8192,
                forall|s: int| 0 <= s < square ==> #[trigger] square_magics_sound(s),
                forall|s: int| 0 <= s < square ==> #[trigger] rook_masks[s] == rook_mask_bb(s),
                forall|s: int| 0 <= s < square ==> #[trigger] bishop_masks[s] == bishop_mask_bb(s),
                forall|s: int|
                    0 <= s < square ==> #[trigger] segment_ok(
                        attacks@,
                        rook_pointers[s] as int,
                        rook_masks[s],
                        rook_bits[s],
                        ROOKMAGICNUMBERS[s],
                        s,
                        true,
                    ),
                forall|s: int|
                    0 <= s < square ==> #[trigger] segment_ok(
                        attacks@,
                        bishop_pointers[s] as int,
                        bishop_masks[s],
                        bishop_bits[s],
                        BISHOPMAGICNUMBERS[s],
                        s,
                        false,
                    ),
            decreases 64 - square,
        {
            let rmask = mask_rook_attacks(square as i8);
            let rbits = rmask.count_ones() as u64;
            if rbits == 0 || rbits > 12 {
                proof {
                    assert(!square_magics_sound(square as int));
                }
                return None;
            }
            let rptr = attacks.len();
            let ghost a0 = attacks@;
            if !fill_segment(&mut attacks, square as i8, rmask, rbits, ROOKMAGICNUMBERS[square], true) {
                proof {
                    assert(!square_magics_sound(square as int));
                }
                return None;
            }
            let bmask = mask_bishop_attacks(square as i8);
            let bbits = bmask.count_ones() as u64;
            if bbits == 0 || bbits > 12 {
                proof {
                    assert(!square_magics_sound(square as int));
                }
                return None;
            }
            let bptr = attacks.len();
            let ghost a1 = attacks@;
            proof {
                lemma_pow2_le_4096(rbits);
            }
            if !fill_segment(&mut attacks, square as i8, bmask, bbits, BISHOPMAGICNUMBERS[square], false) {
                proof {
                    assert(!square_magics_sound(square as int));
                }
                return None;
            }
            proof {
                lemma_pow2_le_4096(bbits);
                lemma_segment_extend(a1, attacks@, rptr as int, rmask, rbits, ROOKMAGICNUMBERS[square as int], square as int, true);
            }
            let ghost (rm0, bm0, rb0, bb0, rp0, bp0) = (rook_masks@, bishop_masks@, rook_bits@, bishop_bits@, rook_pointers@, bishop_pointers@);
            rook_masks.push(rmask);
            bishop_masks.push(bmask);
            rook_bits.push(rbits);
            bishop_bits.push(bbits);
            rook_pointers.push(rptr);
            bishop_pointers.push(bptr);
            proof {
                assert forall|s: int| 0 <= s < square + 1 implies #[trigger] rook_masks[s] == rook_mask_bb(s) by {
                    if s < square {
                        assert(rm0[s] == rook_mask_bb(s));
                    }
                }
                assert forall|s: int| 0 <= s < square + 1 implies #[trigger] bishop_masks[s] == bishop_mask_bb(s) by {
                    if s < square {
                        assert(bm0[s] == bishop_mask_bb(s));
                    }
                }
                assert forall|s: int|
                    0 <= s < square + 1 implies #[trigger] segment_ok(
                    attacks@,
                    rook_pointers[s] as int,
                    rook_masks[s],
                    rook_bits[s],
                    ROOKMAGICNUMBERS[s],
                    s,
                    true,
                ) by {
                    if s < square {
                        assert(rook_masks[s] == rm0[s] && rook_pointers[s] == rp0[s] && rook_bits[s] == rb0[s]);
                        lemma_segment_extend(a0, a1, rp0[s] as int, rm0[s], rb0[s], ROOKMAGICNUMBERS[s], s, true);
                        lemma_segment_extend(a1, attacks@, rp0[s] as int, rm0[s], rb0[s], ROOKMAGICNUMBERS[s], s, true);
                    } else {
                        assert(rook_masks[s] == rmask && rook_pointers[s] == rptr && rook_bits[s] == rbits);
                        assert(rmask == rook_mask_bb(s));
                        assert(segment_ok(attacks@, rptr as int, rmask, rbits, ROOKMAGICNUMBERS[s], s, true));
                    }
                }
                assert forall|s: int|
                    0 <= s < square + 1 implies #[trigger] segment_ok(
                    attacks@,
                    bishop_pointers[s] as int,
                    bishop_masks[s],
                    bishop_bits[s],
                    BISHOPMAGICNUMBERS[s],
                    s,
                    false,
                ) by {
                    if s < square {
                        assert(bishop_masks[s] == bm0[s] && bishop_pointers[s] == bp0[s] && bishop_bits[s] == bb0[s]);
                        lemma_segment_extend(a0, a1, bp0[s] as int, bm0[s], bb0[s], BISHOPMAGICNUMBERS[s], s, false);
                        lemma_segment_extend(a1, attacks@, bp0[s] as int, bm0[s], bb0[s], BISHOPMAGICNUMBERS[s], s, false);
                    } else {
                        assert(bishop_masks[s] == bmask && bishop_pointers[s] == bptr && bishop_bits[s] == bbits);
                        assert(bmask == bishop_mask_bb(s));
                        assert(segment_ok(attacks@, bptr as int, bmask, bbits, BISHOPMAGICNUMBERS[s], s, false));
                    }
                }
            }
            proof {
                assert(square_magics_sound(square as int));
            }
            square = square + 1;
        }
        let t = AttackTables {
            pawn,
            knight,
            king,
            rook_masks,
            bishop_masks,
            rook_bits,
            bishop_bits,
            rook_pointers,
            bishop_pointers,
            attacks,
        };
        proof {
            assert forall|s: int| 0 <= s < 64 implies #[trigger] t.rook_ok(s) by {
                assert(segment_ok(t.attacks@, t.rook_pointers[s] as int, t.rook_masks[s], t.rook_bits[s], ROOKMAGICNUMBERS[s], s, true));
            }
            assert forall|s: int| 0 <= s < 64 implies #[trigger] t.bishop_ok(s) by {
                assert(segment_ok(t.attacks@, t.bishop_pointers[s] as int, t.bishop_masks[s], t.bishop_bits[s], BISHOPMAGICNUMBERS[s], s, false));
            }
        }
        Some(t)
    }
}

/// The squares a bishop on `square` attacks when `occupancy` holds the pieces on the board.
pub fn get_bishop_attacks(tables: &AttackTables, square: usize, occupancy: u64) -> (attacks: u64)
    requires
        tables.wf(),
        square < 64,
    ensures
        attacks == bishop_bb(square as int, occupancy),
{
    let ghost s = square as int;
    proof {
        assert(tables.bishop_ok(s));
    }
    let mask = tables.bishop_masks[square];
    let mut occ = occupancy & mask;
    let ghost masked = occ;
    occ = occ.wrapping_mul(BISHOPMAGICNUMBERS[square]);
    occ = occ >> (64 - tables.bishop_bits[square]);
    proof {
        crate::bits::lemma_u64_laws(occupancy, mask, 0);
        lemma_slot_bound(masked, BISHOPMAGICNUMBERS[s], tables.bishop_bits[s]);
        lemma_pow2_le_4096(tables.bishop_bits[s]);
        assert(occ as int == magic_slot(masked, BISHOPMAGICNUMBERS[s], tables.bishop_bits[s]));
        lemma_bishop_relevant_only(s, occupancy);
    }
    let index = occ as usize;
    proof {
        assert(tables.bishop_pointers[s] + index < tables.attacks.len());
    }
    tables.attacks[tables.bishop_pointers[square] + index]
}

/// The squares a rook on `square` attacks when `occupancy` holds the pieces on the board.
pub fn get_rook_attacks(tables: &AttackTables, square: usize, occupancy: u64) -> (attacks: u64)
    requires
        tables.wf(),
        square < 64,
    ensures
        attacks == rook_bb(square as int, occupancy),
{
    let ghost s = square as int;
    proof {
        assert(tables.rook_ok(s));
    }
    let mask = tables.rook_masks[square];
    let mut occ = occupancy & mask;
    let ghost masked = occ;
    occ = occ.wrapping_mul(ROOKMAGICNUMBERS[square]);
    occ = occ >> (64 - tables.rook_bits[square]);
    proof {
        crate::bits::lemma_u64_laws(occupancy, mask, 0);
        lemma_slot_bound(masked, ROOKMAGICNUMBERS[s], tables.rook_bits[s]);
        lemma_pow2_le_4096(tables.rook_bits[s]);
        assert(occ as int == magic_slot(masked, ROOKMAGICNUMBERS[s], tables.rook_bits[s]));
        lemma_rook_relevant_only(s, occupancy);
    }
    let index = occ as usize;
    proof {
        assert(tables.rook_pointers[s] + index < tables.attacks.len());
    }
    tables.attacks[tables.rook_pointers[square] + index]
}

/// The squares a queen on `square` attacks: those of a rook and of a bishop there.
pub fn get_queen_attacks(tables: &AttackTables, square: usize, occupancy: u64) -> (attacks: u64)
    requires
        tables.wf(),
        square < 64,
    ensures
        attacks == queen_bb(square as int, occupancy),
{
    get_bishop_attacks(tables, square, occupancy) | get_rook_attacks(tables, square, occupancy)
}

} // verus!
