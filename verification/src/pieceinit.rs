//! Generation of attack sets: jumping pieces by shifts, sliding pieces by rays.
use vstd::prelude::*;
use vstd::arithmetic::power2::{pow2, lemma_pow2_unfold, lemma_pow2_pos};
use vstd::bits::lemma_u64_shr_is_div;
use crate::bits::{lowest, clear_low, popcount, lemma_lowest, lemma_bit_pop, lemma_bit_xor, lemma_bits_ext, has_bit, bb_of, single, lemma_bb_of, lemma_bb_of_eq, lemma_bit_set, lemma_bit_zero, lemma_bit_and, lemma_bit_or, lemma_bit_not, lemma_bit_single, lemma_and_single};
use crate::geometry::{knight_reach, king_reach, pawn_reach, knight_bb, king_bb, pawn_bb, ray_reach, ray_sq, ray_dist, step, row, col, on_board, coord_ok, rook_attack, bishop_attack, rook_relevant, bishop_relevant, rook_bb, bishop_bb, rook_mask_bb, bishop_mask_bb};

verus! {

const NOTAFILE: u64 = 18374403900871474942;
const NOTHFILE: u64 = 9187201950435737471;
const NOTHGFILE: u64 = 4557430888798830399;
const NOTABFILE: u64 = 18229723555195321596;

proof fn lemma_knight_shifts(sq: u64, t: u64)
    requires
        sq < 64,
        t < 64,
    ensures
        has_bit(
            (NOTAFILE & (1u64 << sq) >> 15u64) | (NOTHFILE & (1u64 << sq) >> 17u64) | (NOTHGFILE & (1u64
                << sq) >> 10u64) | (NOTABFILE & (1u64 << sq) >> 6u64) | (NOTHFILE & (1u64 << sq)
                << 15u64) | (NOTAFILE & (1u64 << sq) << 17u64) | (NOTABFILE & (1u64 << sq) << 10u64)
                | (NOTHGFILE & (1u64 << sq) << 6u64),
            t,
        ) == knight_reach(sq as int, t as int),
{
    let b = (NOTAFILE & (1u64 << sq) >> 15u64) | (NOTHFILE & (1u64 << sq) >> 17u64) | (NOTHGFILE & (
    1u64 << sq) >> 10u64) | (NOTABFILE & (1u64 << sq) >> 6u64) | (NOTHFILE & (1u64 << sq) << 15u64)
        | (NOTAFILE & (1u64 << sq) << 17u64) | (NOTABFILE & (1u64 << sq) << 10u64) | (NOTHGFILE & (
    1u64 << sq) << 6u64);
    assert(sq < 64 && t < 64 ==> ((((b >> t) & 1u64) == 1u64) == (
        ((t / 8 == sq / 8 + 1 || sq / 8 == t / 8 + 1) && (t % 8 == sq % 8 + 2 || sq % 8 == t % 8 + 2))
        || ((t / 8 == sq / 8 + 2 || sq / 8 == t / 8 + 2) && (t % 8 == sq % 8 + 1 || sq % 8 == t % 8 + 1)))))
        by (bit_vector)
        requires
            b == (NOTAFILE & (1u64 << sq) >> 15u64) | (NOTHFILE & (1u64 << sq) >> 17u64) | (NOTHGFILE
                & (1u64 << sq) >> 10u64) | (NOTABFILE & (1u64 << sq) >> 6u64) | (NOTHFILE & (1u64
                << sq) << 15u64) | (NOTAFILE & (1u64 << sq) << 17u64) | (NOTABFILE & (1u64 << sq)
                << 10u64) | (NOTHGFILE & (1u64 << sq) << 6u64),
    ;
}

proof fn lemma_king_shifts(sq: u64, t: u64)
    requires
        sq < 64,
        t < 64,
    ensures
        has_bit(
            (NOTHFILE & (1u64 << sq) >> 9u64) | ((1u64 << sq) >> 8u64) | (NOTAFILE & (1u64 << sq)
                >> 7u64) | (NOTHFILE & (1u64 << sq) >> 1u64) | (NOTAFILE & (1u64 << sq) << 9u64) | ((
            1u64 << sq) << 8u64) | (NOTHFILE & (1u64 << sq) << 7u64) | (NOTAFILE & (1u64 << sq)
                << 1u64),
            t,
        ) == king_reach(sq as int, t as int),
{
    let b = (NOTHFILE & (1u64 << sq) >> 9u64) | ((1u64 << sq) >> 8u64) | (NOTAFILE & (1u64 << sq)
        >> 7u64) | (NOTHFILE & (1u64 << sq) >> 1u64) | (NOTAFILE & (1u64 << sq) << 9u64) | ((1u64
        << sq) << 8u64) | (NOTHFILE & (1u64 << sq) << 7u64) | (NOTAFILE & (1u64 << sq) << 1u64);
    assert(sq < 64 && t < 64 ==> ((((b >> t) & 1u64) == 1u64) == (t != sq && (t / 8 == sq / 8 || t
        / 8 == sq / 8 + 1 || sq / 8 == t / 8 + 1) && (t % 8 == sq % 8 || t % 8 == sq % 8 + 1 || sq
        % 8 == t % 8 + 1)))) by (bit_vector)
        requires
            b == (NOTHFILE & (1u64 << sq) >> 9u64) | ((1u64 << sq) >> 8u64) | (NOTAFILE & (1u64
                << sq) >> 7u64) | (NOTHFILE & (1u64 << sq) >> 1u64) | (NOTAFILE & (1u64 << sq)
                << 9u64) | ((1u64 << sq) << 8u64) | (NOTHFILE & (1u64 << sq) << 7u64) | (NOTAFILE
                & (1u64 << sq) << 1u64),
    ;
}

proof fn lemma_pawn_shifts(sq: u64, t: u64)
    requires
        sq < 64,
        t < 64,
    ensures
        has_bit((NOTAFILE & (1u64 << sq) >> 7u64) | (NOTHFILE & (1u64 << sq) >> 9u64), t)
            == pawn_reach(0, sq as int, t as int),
        has_bit((NOTHFILE & (1u64 << sq) << 7u64) | (NOTAFILE & (1u64 << sq) << 9u64), t)
            == pawn_reach(1, sq as int, t as int),
{
    let w = (NOTAFILE & (1u64 << sq) >> 7u64) | (NOTHFILE & (1u64 << sq) >> 9u64);
    let b = (NOTHFILE & (1u64 << sq) << 7u64) | (NOTAFILE & (1u64 << sq) << 9u64);
    assert(sq < 64 && t < 64 ==> ((((w >> t) & 1u64) == 1u64) == (sq / 8 == t / 8 + 1 && (t % 8
        == sq % 8 + 1 || sq % 8 == t % 8 + 1)))) by (bit_vector)
        requires
            w == (NOTAFILE & (1u64 << sq) >> 7u64) | (NOTHFILE & (1u64 << sq) >> 9u64),
    ;
    assert(sq < 64 && t < 64 ==> ((((b >> t) & 1u64) == 1u64) == (t / 8 == sq / 8 + 1 && (t % 8
        == sq % 8 + 1 || sq % 8 == t % 8 + 1)))) by (bit_vector)
        requires
            b == (NOTHFILE & (1u64 << sq) << 7u64) | (NOTAFILE & (1u64 << sq) << 9u64),
    ;
}

/// The squares a pawn of `side` (0 white, 1 black) on `square` attacks.
pub fn mask_pawn_attacks(square: u8, side: u8) -> (attacks: u64)
    requires
        square < 64,
    ensures
        attacks == pawn_bb(if side == 0 { 0 } else { 1 }, square as int),
{
    let bitboard = 1u64 << (square as u64);
    let attacks = if side == 0 {
        (NOTAFILE & bitboard >> 7u64) | (NOTHFILE & bitboard >> 9u64)
    } else {
        (NOTHFILE & bitboard << 7u64) | (NOTAFILE & bitboard << 9u64)
    };
    proof {
        let sd: int = if side == 0 { 0 } else { 1 };
        assert forall|t: u64| t < 64 implies #[trigger] has_bit(attacks, t) == pawn_reach(
            sd,
            square as int,
            t as int,
        ) by {
            lemma_pawn_shifts(square as u64, t);
        }
        lemma_bb_of_eq(attacks, |t: u64| pawn_reach(sd, square as int, t as int));
    }
    attacks
}

/// The squares a knight on `square` attacks.
pub fn mask_knight_attacks(square: u8) -> (attacks: u64)
    requires
        square < 64,
    ensures
        attacks == knight_bb(square as int),
{
    let bitboard = 1u64 << (square as u64);
    let attacks = (NOTAFILE & bitboard >> 15u64) | (NOTHFILE & bitboard >> 17u64) | (NOTHGFILE
        & bitboard >> 10u64) | (NOTABFILE & bitboard >> 6u64) | (NOTHFILE & bitboard << 15u64) | (
    NOTAFILE & bitboard << 17u64) | (NOTABFILE & bitboard << 10u64) | (NOTHGFILE & bitboard
        << 6u64);
    proof {
        assert forall|t: u64| t < 64 implies #[trigger] has_bit(attacks, t) == knight_reach(
            square as int,
            t as int,
        ) by {
            lemma_knight_shifts(square as u64, t);
        }
        lemma_bb_of_eq(attacks, |t: u64| knight_reach(square as int, t as int));
    }
    attacks
}

/// The squares a king on `square` attacks.
pub fn mask_king_attacks(square: u8) -> (attacks: u64)
    requires
        square < 64,
    ensures
        attacks == king_bb(square as int),
{
    let bitboard = 1u64 << (square as u64);
    let attacks = (NOTHFILE & bitboard >> 9u64) | (bitboard >> 8u64) | (NOTAFILE & bitboard >> 7u64)
        | (NOTHFILE & bitboard >> 1u64) | (NOTAFILE & bitboard << 9u64) | (bitboard << 8u64) | (
    NOTHFILE & bitboard << 7u64) | (NOTAFILE & bitboard << 1u64);
    proof {
        assert forall|t: u64| t < 64 implies #[trigger] has_bit(attacks, t) == king_reach(
            square as int,
            t as int,
        ) by {
            lemma_king_shifts(square as u64, t);
        }
        lemma_bb_of_eq(attacks, |t: u64| king_reach(square as int, t as int));
    }
    attacks
}

/// The pawn attack table: entry [side][square] is the attack set of a pawn of `side` on `square`.
pub fn init_pawn_attacks() -> (table: [[u64; 64]; 2])
    ensures
        forall|s: int| 0 <= s < 64 ==> #[trigger] table[0][s] == pawn_bb(0, s),
        forall|s: int| 0 <= s < 64 ==> #[trigger] table[1][s] == pawn_bb(1, s),
{
    let mut pawn_attacks = [[0u64; 64]; 2];
    for square in 0..64usize
        invariant
            forall|s: int| 0 <= s < square ==> #[trigger] pawn_attacks[0][s] == pawn_bb(0, s),
    {
        pawn_attacks[0][square] = mask_pawn_attacks(square as u8, 0);
    }
    for square in 0..64usize
        invariant
            forall|s: int| 0 <= s < 64 ==> #[trigger] pawn_attacks[0][s] == pawn_bb(0, s),
            forall|s: int| 0 <= s < square ==> #[trigger] pawn_attacks[1][s] == pawn_bb(1, s),
    {
        pawn_attacks[1][square] = mask_pawn_attacks(square as u8, 1);
    }
    pawn_attacks
}

/// The knight attack table, by square.
pub fn init_knight_attacks() -> (table: [u64; 64])
    ensures
        forall|s: int| 0 <= s < 64 ==> #[trigger] table[s] == knight_bb(s),
{
    let mut knight_attacks = [0u64; 64];
    for square in 0..64usize
        invariant
            forall|s: int| 0 <= s < square ==> #[trigger] knight_attacks[s] == knight_bb(s),
    {
        knight_attacks[square] = mask_knight_attacks(square as u8);
    }
    knight_attacks
}

/// The king attack table, by square.
pub fn init_king_attacks() -> (table: [u64; 64])
    ensures
        forall|s: int| 0 <= s < 64 ==> #[trigger] table[s] == king_bb(s),
{
    let mut king_attacks = [0u64; 64];
    for square in 0..64usize
        invariant
            forall|s: int| 0 <= s < square ==> #[trigger] king_attacks[s] == king_bb(s),
    {
        king_attacks[square] = mask_king_attacks(square as u8);
    }
    king_attacks
}

/// The squares on the ray `(dr, df)` from `square` up to `k` steps.
spec fn ray_upto(sq: int, dr: int, df: int, k: int, t: int) -> bool {
    let d = ray_dist(sq, dr, df, t);
    &&& on_board(t)
    &&& 1 <= d < k
    &&& row(t) == row(sq) + step(dr, d)
    &&& col(t) == col(sq) + step(df, d)
}

/// Walks the ray `(dr, df)` from `square`, collecting squares while the moving coordinates
/// stay within [lo, hi], and stopping after the first square of `block`.
fn slide(square: i32, dr: i32, df: i32, block: u64, lo: i32, hi: i32) -> (attacks: u64)
    requires
        0 <= square < 64,
        -1 <= dr <= 1,
        -1 <= df <= 1,
        dr != 0 || df != 0,
        (lo == 0 && hi == 7) || (lo == 1 && hi == 6),
    ensures
        forall|t: u64|
            t < 64 ==> #[trigger] has_bit(attacks, t) == ray_reach(
                square as int,
                dr as int,
                df as int,
                block,
                lo as int,
                hi as int,
                t as int,
            ),
{
    let ghost sq = square as int;
    let tr = square / 8;
    let tf = square % 8;
    let mut r = tr + dr;
    let mut f = tf + df;
    let mut attacks: u64 = 0;
    let mut blocked = false;
    let ghost mut k: int = 1;
    proof {
        assert forall|t: u64| t < 64 implies #[trigger] has_bit(attacks, t) == ray_upto(
            sq,
            dr as int,
            df as int,
            k,
            t as int,
        ) by {
            lemma_bit_zero(t);
        }
    }
    while !blocked && (dr == 0 || (lo <= r && r <= hi)) && (df == 0 || (lo <= f && f <= hi))
        invariant
            0 <= square < 64,
            sq == square as int,
            tr == row(sq),
            tf == col(sq),
            -1 <= dr <= 1,
            -1 <= df <= 1,
            dr != 0 || df != 0,
            (lo == 0 && hi == 7) || (lo == 1 && hi == 6),
            1 <= k <= 8,
            r == tr + step(dr as int, k),
            f == tf + step(df as int, k),
            forall|j: int|
                1 <= j < k ==> coord_ok(row(sq) + step(dr as int, j), dr as int, lo as int, hi as int)
                    && coord_ok(col(sq) + step(df as int, j), df as int, lo as int, hi as int),
            forall|j: int|
                1 <= j < k ==> !has_bit(block, #[trigger] ray_sq(sq, dr as int, df as int, j) as u64),
            blocked ==> coord_ok(r as int, dr as int, lo as int, hi as int) && coord_ok(
                f as int,
                df as int,
                lo as int,
                hi as int,
            ) && has_bit(block, ray_sq(sq, dr as int, df as int, k) as u64),
            forall|t: u64|
                t < 64 ==> #[trigger] has_bit(attacks, t) == ray_upto(
                    sq,
                    dr as int,
                    df as int,
                    if blocked { k + 1 } else { k },
                    t as int,
                ),
        decreases 9 - k - (if blocked { 1int } else { 0 }),
    {
        let s = r * 8 + f;
        let ghost old_attacks = attacks;
        attacks = attacks | (1u64 << (s as u64));
        proof {
            assert(row(s as int) == r && col(s as int) == f);
            assert(s as int == ray_sq(sq, dr as int, df as int, k));
            assert forall|t: u64| t < 64 implies #[trigger] has_bit(attacks, t) == ray_upto(
                sq,
                dr as int,
                df as int,
                k + 1,
                t as int,
            ) by {
                lemma_bit_set(old_attacks, s as u64, t);
                if t == s as u64 {
                    assert(ray_dist(sq, dr as int, df as int, t as int) == k);
                } else if ray_upto(sq, dr as int, df as int, k + 1, t as int) {
                    let d = ray_dist(sq, dr as int, df as int, t as int);
                    if d == k {
                        assert(t as int == row(t as int) * 8 + col(t as int));
                    }
                }
            }
        }
        if block & (1u64 << (s as u64)) != 0 {
            proof {
                lemma_and_single(block, s as u64);
            }
            blocked = true;
        } else {
            proof {
                lemma_and_single(block, s as u64);
                assert forall|j: int|
                    1 <= j < k + 1 implies !has_bit(
                    block,
                    #[trigger] ray_sq(sq, dr as int, df as int, j) as u64,
                ) by {
                    if j == k {
                    }
                }
            }
            r = r + dr;
            f = f + df;
            proof {
                k = k + 1;
            }
        }
    }
    proof {
        assert forall|t: u64| t < 64 implies #[trigger] has_bit(attacks, t) == ray_reach(
            sq,
            dr as int,
            df as int,
            block,
            lo as int,
            hi as int,
            t as int,
        ) by {
            let d = ray_dist(sq, dr as int, df as int, t as int);
            if ray_reach(sq, dr as int, df as int, block, lo as int, hi as int, t as int) {
                if blocked {
                    if d > k {
                        assert(!has_bit(block, ray_sq(sq, dr as int, df as int, k) as u64));
                    }
                }
            }
        }
    }
    attacks
}


/// The squares whose occupancy decides the attacks of a bishop on `square`.
pub(crate) fn mask_bishop_attacks(square: i8) -> (attacks: u64)
    requires
        0 <= square < 64,
    ensures
        attacks == bishop_mask_bb(square as int),
{
    let sq = square as i32;
    let a1 = slide(sq, 1, 1, 0, 1, 6);
    let a2 = slide(sq, -1, 1, 0, 1, 6);
    let a3 = slide(sq, 1, -1, 0, 1, 6);
    let a4 = slide(sq, -1, -1, 0, 1, 6);
    let attacks = a1 | a2 | a3 | a4;
    proof {
        assert forall|t: u64| t < 64 implies #[trigger] has_bit(attacks, t) == bishop_relevant(
            square as int,
            t as int,
        ) by {
            lemma_bit_or(a1 | a2 | a3, a4, t);
            lemma_bit_or(a1 | a2, a3, t);
            lemma_bit_or(a1, a2, t);
        }
        lemma_bb_of_eq(attacks, |t: u64| bishop_relevant(square as int, t as int));
    }
    attacks
}

/// The squares whose occupancy decides the attacks of a rook on `square`.
pub fn mask_rook_attacks(square: i8) -> (attacks: u64)
    requires
        0 <= square < 64,
    ensures
        attacks == rook_mask_bb(square as int),
{
    let sq = square as i32;
    let a1 = slide(sq, 1, 0, 0, 1, 6);
    let a2 = slide(sq, -1, 0, 0, 1, 6);
    let a3 = slide(sq, 0, -1, 0, 1, 6);
    let a4 = slide(sq, 0, 1, 0, 1, 6);
    let attacks = a1 | a2 | a3 | a4;
    proof {
        assert forall|t: u64| t < 64 implies #[trigger] has_bit(attacks, t) == rook_relevant(
            square as int,
            t as int,
        ) by {
            lemma_bit_or(a1 | a2 | a3, a4, t);
            lemma_bit_or(a1 | a2, a3, t);
            lemma_bit_or(a1, a2, t);
        }
        lemma_bb_of_eq(attacks, |t: u64| rook_relevant(square as int, t as int));
    }
    attacks
}

/// The squares a bishop on `square` attacks when the pieces of `block` stand on the board.
pub(crate) fn bishop_attacks_on_fly(square: i8, block: u64) -> (attacks: u64)
    requires
        0 <= square < 64,
    ensures
        attacks == bishop_bb(square as int, block),
{
    let sq = square as i32;
    let a1 = slide(sq, 1, 1, block, 0, 7);
    let a2 = slide(sq, -1, 1, block, 0, 7);
    let a3 = slide(sq, 1, -1, block, 0, 7);
    let a4 = slide(sq, -1, -1, block, 0, 7);
    let attacks = a1 | a2 | a3 | a4;
    proof {
        assert forall|t: u64| t < 64 implies #[trigger] has_bit(attacks, t) == bishop_attack(
            square as int, block,
            t as int,
        ) by {
            lemma_bit_or(a1 | a2 | a3, a4, t);
            lemma_bit_or(a1 | a2, a3, t);
            lemma_bit_or(a1, a2, t);
        }
        lemma_bb_of_eq(attacks, |t: u64| bishop_attack(square as int, block, t as int));
    }
    attacks
}

/// The squares a rook on `square` attacks when the pieces of `block` stand on the board.
pub(crate) fn rook_attacks_on_fly(square: i8, block: u64) -> (attacks: u64)
    requires
        0 <= square < 64,
    ensures
        attacks == rook_bb(square as int, block),
{
    let sq = square as i32;
    let a1 = slide(sq, 1, 0, block, 0, 7);
    let a2 = slide(sq, -1, 0, block, 0, 7);
    let a3 = slide(sq, 0, -1, block, 0, 7);
    let a4 = slide(sq, 0, 1, block, 0, 7);
    let attacks = a1 | a2 | a3 | a4;
    proof {
        assert forall|t: u64| t < 64 implies #[trigger] has_bit(attacks, t) == rook_attack(
            square as int, block,
            t as int,
        ) by {
            lemma_bit_or(a1 | a2 | a3, a4, t);
            lemma_bit_or(a1 | a2, a3, t);
            lemma_bit_or(a1, a2, t);
        }
        lemma_bb_of_eq(attacks, |t: u64| rook_attack(square as int, block, t as int));
    }
    attacks
}


// ---------------------------------------------------------------------------
// occupancy enumeration
/// Spreads the bits of `idx` over the set squares of `mask`, lowest square first.
pub open spec fn deposit(idx: nat, mask: u64) -> u64
    decreases mask,
{
    if mask == 0 {
        0
    } else {
        proof {
            lemma_lowest(mask);
        }
        (if idx % 2 == 1 { single(lowest(mask)) } else { 0u64 }) | deposit(idx / 2, clear_low(mask))
    }
}

/// Gathers the squares of `s` that lie in `mask` into an index, lowest square first.
pub open spec fn extract(s: u64, mask: u64) -> nat
    decreases mask,
{
    if mask == 0 {
        0
    } else {
        proof {
            lemma_lowest(mask);
        }
        (if has_bit(s, lowest(mask)) { 1nat } else { 0nat }) + 2 * extract(s, clear_low(mask))
    }
}

pub proof fn lemma_clear_low_bits(m: u64, t: u64)
    requires
        m != 0,
        t < 64,
    ensures
        has_bit(clear_low(m), t) == (has_bit(m, t) && t != lowest(m)),
        has_bit(m, t) == (t == lowest(m) || has_bit(clear_low(m), t)),
{
    lemma_lowest(m);
    lemma_bit_pop(m, lowest(m), t);
}

/// Depositing the extracted index gives back the squares of `s` inside `mask`.
pub proof fn lemma_deposit_extract(s: u64, mask: u64)
    ensures
        deposit(extract(s, mask), mask) == s & mask,
    decreases mask,
{
    if mask == 0 {
        crate::bits::lemma_u64_laws(s, 0, 0);
    } else {
        lemma_lowest(mask);
        let l = lowest(mask);
        let c = clear_low(mask);
        let e = extract(s, mask);
        lemma_deposit_extract(s, c);
        assert(e % 2 == (if has_bit(s, l) { 1nat } else { 0nat }));
        assert(e / 2 == extract(s, c));
        let lhs = deposit(e, mask);
        assert(lhs == (if has_bit(s, l) { single(l) } else { 0u64 }) | (s & c));
        assert forall|t: u64| t < 64 implies #[trigger] has_bit(lhs, t) == has_bit(s & mask, t) by {
            lemma_bit_or((if has_bit(s, l) { single(l) } else { 0u64 }), s & c, t);
            lemma_bit_single(l, t);
            lemma_bit_zero(t);
            lemma_bit_and(s, c, t);
            lemma_bit_and(s, mask, t);
            lemma_clear_low_bits(mask, t);
        }
        lemma_bits_ext(lhs, s & mask);
    }
}

/// The extracted index is below 2 to the number of squares of `mask`.
pub proof fn lemma_extract_bound(s: u64, mask: u64)
    ensures
        extract(s, mask) < pow2(popcount(mask)),
    decreases mask,
{
    if mask == 0 {
        vstd::arithmetic::power2::lemma2_to64();
    } else {
        lemma_lowest(mask);
        lemma_extract_bound(s, clear_low(mask));
        lemma_pow2_unfold(popcount(mask));
    }
}

proof fn lemma_bit_of_index(x: u64, c: u64)
    requires
        c < 64,
    ensures
        (x & (1u64 << c) != 0) == ((x as nat / pow2(c as nat)) % 2 == 1),
{
    lemma_u64_shr_is_div(x, c);
    crate::bits::lemma_u64_squares(x, 0, c, 0);
}

/// The `magic_index`-th subset of the squares of `attack_mask`: bit `i` of the index
/// decides the `i`-th lowest square of the mask.
pub fn set_occupancy(magic_index: usize, attack_mask: u64) -> (occupancy: u64)
    requires
        magic_index <= u64::MAX,
    ensures
        occupancy == deposit(magic_index as nat, attack_mask),
{
    let mut occupancy = 0u64;
    let mut mask = attack_mask;
    let bitcount = attack_mask.count_ones();
    proof {
        crate::bits::lemma_popcount_le_64(attack_mask);
        vstd::arithmetic::power2::lemma2_to64();
        let d0 = deposit(magic_index as nat, attack_mask);
        crate::bits::lemma_u64_laws(d0, 0, 0);
    }
    for count in 0..bitcount
        invariant
            bitcount as nat == popcount(attack_mask),
            bitcount <= 64,
            magic_index <= u64::MAX,
            popcount(mask) + count == popcount(attack_mask),
            occupancy | deposit(magic_index as nat / pow2(count as nat), mask) == deposit(
                magic_index as nat,
                attack_mask,
            ),
    {
        let ghost q = magic_index as nat / pow2(count as nat);
        proof {
            if mask == 0 {
                assert(popcount(mask) == 0);
            }
            lemma_lowest(mask);
        }
        let square = mask.trailing_zeros();
        let ghost old_mask = mask;
        let ghost old_occ = occupancy;
        mask = mask & !(1u64 << (square as u64));
        proof {
            assert(mask == clear_low(old_mask));
            lemma_bit_of_index(magic_index as u64, count as u64);
            lemma_pow2_pos(count as nat);
            vstd::arithmetic::div_mod::lemma_div_denominator(
                magic_index as int,
                pow2(count as nat) as int,
                2,
            );
            lemma_pow2_unfold((count + 1) as nat);
            assert(q / 2 == magic_index as nat / pow2((count + 1) as nat));
        }
        if magic_index as u64 & (1u64 << (count as u64)) != 0 {
            occupancy = occupancy | (1u64 << (square as u64));
        }
        proof {
            let d2 = deposit(q / 2, mask);
            let b = if q % 2 == 1 { single(lowest(old_mask)) } else { 0u64 };
            assert(deposit(q, old_mask) == b | d2);
            assert(occupancy == old_occ | b) by {
                if q % 2 != 1 {
                    crate::bits::lemma_u64_laws(old_occ, 0, 0);
                }
            }
            crate::bits::lemma_u64_laws(old_occ, b, d2);
        }
    }
    proof {
        crate::bits::lemma_popcount_le_64(mask);
        assert(mask == 0);
        lemma_pow2_pos(bitcount as nat);
        assert(deposit(magic_index as nat / pow2(bitcount as nat), mask) == 0);
        crate::bits::lemma_u64_laws(occupancy, 0, 0);
    }
    occupancy
}

} // verus!
