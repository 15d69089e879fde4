//! Board geometry: ranks and files of squares, the squares each piece attacks,
//! and sliding rays. Square 0 is a8, square 7 is h8, square 63 is h1; a square's
//! row is 0 on the eighth rank and grows toward the first rank.
use vstd::prelude::*;
use crate::bits::{lemma_bits_ext, has_bit, bb_of, single, lemma_bb_of, lemma_bb_of_eq, lemma_bit_set, lemma_bit_zero, lemma_bit_and, lemma_bit_or, lemma_bit_not, lemma_bit_single};

verus! {

pub open spec fn row(s: int) -> int {
    s / 8
}

pub open spec fn col(s: int) -> int {
    s % 8
}

pub open spec fn abs(x: int) -> int {
    if x < 0 {
        -x
    } else {
        x
    }
}

pub open spec fn on_board(s: int) -> bool {
    0 <= s < 64
}

/// A knight on `f` attacks `t`.
pub open spec fn knight_reach(f: int, t: int) -> bool {
    &&& on_board(f)
    &&& on_board(t)
    &&& {
        ||| abs(row(t) - row(f)) == 1 && abs(col(t) - col(f)) == 2
        ||| abs(row(t) - row(f)) == 2 && abs(col(t) - col(f)) == 1
    }
}

/// A king on `f` attacks `t`.
pub open spec fn king_reach(f: int, t: int) -> bool {
    &&& on_board(f)
    &&& on_board(t)
    &&& f != t
    &&& abs(row(t) - row(f)) <= 1
    &&& abs(col(t) - col(f)) <= 1
}

/// A pawn of `side` (0 white, moving toward row 0; otherwise black) on `f` attacks `t`.
pub open spec fn pawn_reach(side: int, f: int, t: int) -> bool {
    &&& on_board(f)
    &&& on_board(t)
    &&& abs(col(t) - col(f)) == 1
    &&& if side == 0 {
        row(t) == row(f) - 1
    } else {
        row(t) == row(f) + 1
    }
}

pub open spec fn knight_bb(f: int) -> u64 {
    bb_of(|t: u64| knight_reach(f, t as int))
}

pub open spec fn king_bb(f: int) -> u64 {
    bb_of(|t: u64| king_reach(f, t as int))
}

pub open spec fn pawn_bb(side: int, f: int) -> u64 {
    bb_of(|t: u64| pawn_reach(side, f, t as int))
}

// ---------------------------------------------------------------------------
// rays
/// `k` steps in direction `d` (one of -1, 0, 1).
pub open spec fn step(d: int, k: int) -> int {
    if d == 1 {
        k
    } else if d == -1 {
        -k
    } else {
        0
    }
}

pub open spec fn ray_sq(sq: int, dr: int, df: int, k: int) -> int {
    (row(sq) + step(dr, k)) * 8 + (col(sq) + step(df, k))
}

/// How many steps along the ray (dr, df) from `sq` the square `t` lies, when it lies on it.
pub open spec fn ray_dist(sq: int, dr: int, df: int, t: int) -> int {
    if dr != 0 {
        step(dr, row(t) - row(sq))
    } else {
        step(df, col(t) - col(sq))
    }
}

/// A coordinate of a ray square lies in range: a moving coordinate within [lo, hi].
pub open spec fn coord_ok(x: int, d: int, lo: int, hi: int) -> bool {
    if d == 0 {
        0 <= x <= 7
    } else {
        lo <= x <= hi
    }
}

/// `t` lies on the ray (dr, df) from `sq`, with its moving coordinates within [lo, hi],
/// and no square of `block` lies on the ray strictly between `sq` and `t`.
pub open spec fn ray_reach(sq: int, dr: int, df: int, block: u64, lo: int, hi: int, t: int) -> bool {
    let k = ray_dist(sq, dr, df, t);
    &&& on_board(t)
    &&& k >= 1
    &&& row(t) == row(sq) + step(dr, k)
    &&& col(t) == col(sq) + step(df, k)
    &&& coord_ok(row(t), dr, lo, hi)
    &&& coord_ok(col(t), df, lo, hi)
    &&& forall|j: int| 1 <= j < k ==> !has_bit(block, #[trigger] ray_sq(sq, dr, df, j) as u64)
}

/// A rook on `sq` attacks `t` when the pieces of `block` stand on the board.
pub open spec fn rook_attack(sq: int, block: u64, t: int) -> bool {
    ||| ray_reach(sq, 1, 0, block, 0, 7, t)
    ||| ray_reach(sq, -1, 0, block, 0, 7, t)
    ||| ray_reach(sq, 0, -1, block, 0, 7, t)
    ||| ray_reach(sq, 0, 1, block, 0, 7, t)
}

/// A bishop on `sq` attacks `t` when the pieces of `block` stand on the board.
pub open spec fn bishop_attack(sq: int, block: u64, t: int) -> bool {
    ||| ray_reach(sq, 1, 1, block, 0, 7, t)
    ||| ray_reach(sq, -1, 1, block, 0, 7, t)
    ||| ray_reach(sq, 1, -1, block, 0, 7, t)
    ||| ray_reach(sq, -1, -1, block, 0, 7, t)
}

/// The squares whose occupancy matters to a rook on `sq`: its rays without the board edge.
pub open spec fn rook_relevant(sq: int, t: int) -> bool {
    ||| ray_reach(sq, 1, 0, 0, 1, 6, t)
    ||| ray_reach(sq, -1, 0, 0, 1, 6, t)
    ||| ray_reach(sq, 0, -1, 0, 1, 6, t)
    ||| ray_reach(sq, 0, 1, 0, 1, 6, t)
}

/// The squares whose occupancy matters to a bishop on `sq`.
pub open spec fn bishop_relevant(sq: int, t: int) -> bool {
    ||| ray_reach(sq, 1, 1, 0, 1, 6, t)
    ||| ray_reach(sq, -1, 1, 0, 1, 6, t)
    ||| ray_reach(sq, 1, -1, 0, 1, 6, t)
    ||| ray_reach(sq, -1, -1, 0, 1, 6, t)
}

pub open spec fn rook_bb(sq: int, block: u64) -> u64 {
    bb_of(|t: u64| rook_attack(sq, block, t as int))
}

pub open spec fn bishop_bb(sq: int, block: u64) -> u64 {
    bb_of(|t: u64| bishop_attack(sq, block, t as int))
}

pub open spec fn rook_mask_bb(sq: int) -> u64 {
    bb_of(|t: u64| rook_relevant(sq, t as int))
}

pub open spec fn bishop_mask_bb(sq: int) -> u64 {
    bb_of(|t: u64| bishop_relevant(sq, t as int))
}

pub open spec fn queen_bb(sq: int, block: u64) -> u64 {
    bishop_bb(sq, block) | rook_bb(sq, block)
}


// ---------------------------------------------------------------------------
// Only the relevant squares decide a slider's attacks
proof fn lemma_zero_bits()
    ensures
        forall|t: u64| !#[trigger] has_bit(0u64, t),
{
    assert forall|t: u64| !#[trigger] has_bit(0u64, t) by {
        lemma_bit_zero(t);
    }
}

/// A square strictly inside a ray that reaches a board square is a relevant square.
proof fn lemma_inner_square(sq: int, dr: int, df: int, k: int, j: int)
    requires
        on_board(sq),
        -1 <= dr <= 1,
        -1 <= df <= 1,
        dr != 0 || df != 0,
        1 <= j < k,
        coord_ok(row(sq) + step(dr, k), dr, 0, 7),
        coord_ok(col(sq) + step(df, k), df, 0, 7),
    ensures
        ray_reach(sq, dr, df, 0, 1, 6, ray_sq(sq, dr, df, j)),
{
    lemma_zero_bits();
    let t = ray_sq(sq, dr, df, j);
    assert(row(t) == row(sq) + step(dr, j) && col(t) == col(sq) + step(df, j));
}

proof fn lemma_ray_relevant_only(sq: int, dr: int, df: int, occ: u64, mask: u64, t: int)
    requires
        on_board(sq),
        -1 <= dr <= 1,
        -1 <= df <= 1,
        dr != 0 || df != 0,
        forall|s: u64|
            s < 64 && ray_reach(sq, dr, df, 0, 1, 6, s as int) ==> #[trigger] has_bit(mask, s),
    ensures
        ray_reach(sq, dr, df, occ & mask, 0, 7, t) == ray_reach(sq, dr, df, occ, 0, 7, t),
{
    let k = ray_dist(sq, dr, df, t);
    if on_board(t) && k >= 1 && row(t) == row(sq) + step(dr, k) && col(t) == col(sq) + step(df, k)
        && coord_ok(row(t), dr, 0, 7) && coord_ok(col(t), df, 0, 7) {
        assert forall|j: int| 1 <= j < k implies has_bit(occ & mask, #[trigger] ray_sq(sq, dr, df, j) as u64)
            == has_bit(occ, ray_sq(sq, dr, df, j) as u64) by {
            lemma_inner_square(sq, dr, df, k, j);
            let s = ray_sq(sq, dr, df, j);
            assert(0 <= s < 64);
            assert(ray_reach(sq, dr, df, 0, 1, 6, (s as u64) as int));
            lemma_bit_and(occ, mask, s as u64);
        }
    }
}

/// Only the squares of a rook's relevant mask decide its attacks.
pub proof fn lemma_rook_relevant_only(sq: int, occ: u64)
    requires
        on_board(sq),
    ensures
        rook_bb(sq, occ & rook_mask_bb(sq)) == rook_bb(sq, occ),
{
    let mask = rook_mask_bb(sq);
    lemma_bb_of(|t: u64| rook_relevant(sq, t as int));
    lemma_bb_of(|t: u64| rook_attack(sq, occ & mask, t as int));
    lemma_bb_of(|t: u64| rook_attack(sq, occ, t as int));
    assert forall|t: u64| t < 64 implies #[trigger] has_bit(rook_bb(sq, occ & mask), t) == has_bit(
        rook_bb(sq, occ),
        t,
    ) by {
        lemma_ray_relevant_only(sq, 1, 0, occ, mask, t as int);
        lemma_ray_relevant_only(sq, -1, 0, occ, mask, t as int);
        lemma_ray_relevant_only(sq, 0, -1, occ, mask, t as int);
        lemma_ray_relevant_only(sq, 0, 1, occ, mask, t as int);
    }
    lemma_bits_ext(rook_bb(sq, occ & mask), rook_bb(sq, occ));
}

/// Only the squares of a bishop's relevant mask decide its attacks.
pub proof fn lemma_bishop_relevant_only(sq: int, occ: u64)
    requires
        on_board(sq),
    ensures
        bishop_bb(sq, occ & bishop_mask_bb(sq)) == bishop_bb(sq, occ),
{
    let mask = bishop_mask_bb(sq);
    lemma_bb_of(|t: u64| bishop_relevant(sq, t as int));
    lemma_bb_of(|t: u64| bishop_attack(sq, occ & mask, t as int));
    lemma_bb_of(|t: u64| bishop_attack(sq, occ, t as int));
    assert forall|t: u64| t < 64 implies #[trigger] has_bit(bishop_bb(sq, occ & mask), t) == has_bit(
        bishop_bb(sq, occ),
        t,
    ) by {
        lemma_ray_relevant_only(sq, 1, 1, occ, mask, t as int);
        lemma_ray_relevant_only(sq, -1, 1, occ, mask, t as int);
        lemma_ray_relevant_only(sq, 1, -1, occ, mask, t as int);
        lemma_ray_relevant_only(sq, -1, -1, occ, mask, t as int);
    }
    lemma_bits_ext(bishop_bb(sq, occ & mask), bishop_bb(sq, occ));
}

/// A rook and a bishop on the same square never attack the same square.
pub proof fn lemma_rook_bishop_apart(sq: int, occ: u64, t: u64)
    requires
        on_board(sq),
        t < 64,
    ensures
        !(has_bit(rook_bb(sq, occ), t) && has_bit(bishop_bb(sq, occ), t)),
{
    lemma_bb_of(|x: u64| rook_attack(sq, occ, x as int));
    lemma_bb_of(|x: u64| bishop_attack(sq, occ, x as int));
    assert(has_bit(rook_bb(sq, occ), t) == rook_attack(sq, occ, t as int));
    assert(has_bit(bishop_bb(sq, occ), t) == bishop_attack(sq, occ, t as int));
}

/// No piece attacks its own square.
pub proof fn lemma_not_own_square(sq: int, occ: u64)
    requires
        on_board(sq),
    ensures
        !has_bit(king_bb(sq), sq as u64),
        !has_bit(knight_bb(sq), sq as u64),
        !has_bit(rook_bb(sq, occ), sq as u64),
        !has_bit(bishop_bb(sq, occ), sq as u64),
{
    lemma_bb_of(|x: u64| king_reach(sq, x as int));
    lemma_bb_of(|x: u64| knight_reach(sq, x as int));
    lemma_bb_of(|x: u64| rook_attack(sq, occ, x as int));
    lemma_bb_of(|x: u64| bishop_attack(sq, occ, x as int));
    assert(has_bit(king_bb(sq), sq as u64) == king_reach(sq, sq));
    assert(has_bit(knight_bb(sq), sq as u64) == knight_reach(sq, sq));
    assert(has_bit(rook_bb(sq, occ), sq as u64) == rook_attack(sq, occ, sq));
    assert(has_bit(bishop_bb(sq, occ), sq as u64) == bishop_attack(sq, occ, sq));
}

} // verus!
