//! Static evaluation: material and square tables, pawn structure and mobility, each with a
//! middlegame and an endgame weight, blended by the material left on the board.
use vstd::prelude::*;
use crate::bits::{has_bit, lowest, clear_low, popcount, lemma_lowest, lemma_popcount_le_64, lemma_bit_and};
use crate::moves::{Move, MoveStuff, spec_initial, spec_final, spec_extra};
use crate::ordering::PIECEWEIGHT;
use crate::geometry::{pawn_bb, knight_bb, king_bb, rook_bb, bishop_bb, queen_bb};
use crate::engine::{Board, BitBoard, NOT_A_FILE, NOT_H_FILE};
use crate::movegen::union_over;
use crate::piececonstants::{AttackTables, get_bishop_attacks, get_rook_attacks, get_queen_attacks};

verus! {

/// The weights of the evaluation.
pub struct EvalWeights {
    /// Weight of each piece kind in the game phase.
    pub phase: [i32; 6],
    /// Middlegame value of each piece kind on each square, from white's side.
    pub midgame: [[i32; 64]; 6],
    /// Endgame value of each piece kind on each square, from white's side.
    pub endgame: [[i32; 64]; 6],
    /// Middlegame and endgame values of a passed, an isolated and a doubled pawn.
    pub structure: [[i32; 3]; 2],
    /// Mobility is divided by this.
    pub mobility_scale: i32,
    /// The phase from which on the middlegame values count alone.
    pub midgame_phase: i32,
    /// The phase up to which the endgame values count alone.
    pub endgame_phase: i32,
}

impl EvalWeights {
    /// Values of at most 10000 in size, positive mobility scale and phases in order.
    pub open spec fn wf(&self) -> bool {
        &&& forall|i: int, s: int|
            0 <= i < 6 && 0 <= s < 64 ==> -10000 <= #[trigger] self.midgame[i][s] <= 10000
        &&& forall|i: int, s: int|
            0 <= i < 6 && 0 <= s < 64 ==> -10000 <= #[trigger] self.endgame[i][s] <= 10000
        &&& forall|i: int| 0 <= i < 6 ==> 0 <= #[trigger] self.phase[i] <= 100
        &&& forall|i: int, j: int|
            0 <= i < 2 && 0 <= j < 3 ==> -10000 <= #[trigger] self.structure[i][j] <= 10000
        &&& 1 <= self.mobility_scale
        &&& 0 <= self.endgame_phase < self.midgame_phase <= 10000
    }
}

/// The score of a drawn position.
pub open spec fn spec_draw_score(ply: int) -> i32 {
    0
}

/// The score of a drawn position reached at `ply`.
pub fn draw_score(ply: usize) -> (score: i32)
    ensures
        score == spec_draw_score(ply as int),
{
    0
}

// ---------------------------------------------------------------------------
// sums over the squares of a bitboard
pub open spec fn sum_over(bb: u64, f: spec_fn(int) -> int) -> int
    decreases bb,
{
    if bb == 0 {
        0
    } else {
        proof {
            lemma_lowest(bb);
        }
        f(lowest(bb) as int) + sum_over(clear_low(bb), f)
    }
}

/// Square `s` seen from the other side: the rank mirrored.
pub open spec fn flip(s: int) -> int {
    (s as u64 ^ 56u64) as int
}

pub open spec fn table_at(t: [i32; 64], flipped: bool) -> spec_fn(int) -> int {
    |s: int|
        t[if flipped {
            flip(s)
        } else {
            s
        }] as int
}

proof fn lemma_pop_step(rest: u64, sq: u64)
    requires
        rest != 0,
        sq == lowest(rest),
    ensures
        sq < 64,
        rest & !(1u64 << sq) == clear_low(rest),
        popcount(rest) == popcount(clear_low(rest)) + 1,
        clear_low(rest) < rest,
{
    lemma_lowest(rest);
}

/// The sum of the values of `t` on the squares of `pieces`, mirrored when `flipped`.
fn table_sum(t: &[i32; 64], pieces: u64, flipped: bool) -> (r: i64)
    requires
        forall|s: int| 0 <= s < 64 ==> -10000 <= #[trigger] t[s] <= 10000,
    ensures
        r == sum_over(pieces, table_at(*t, flipped)),
        -640000 <= r <= 640000,
{
    let ghost f = table_at(*t, flipped);
    let mut acc: i64 = 0;
    let mut rest = pieces;
    let mut k: i64 = 0;
    proof {
        lemma_popcount_le_64(pieces);
    }
    while rest != 0
        invariant
            forall|s: int| 0 <= s < 64 ==> -10000 <= #[trigger] t[s] <= 10000,
            f == table_at(*t, flipped),
            acc + sum_over(rest, f) == sum_over(pieces, f),
            k + popcount(rest) == popcount(pieces),
            popcount(pieces) <= 64,
            0 <= k <= 64,
            -10000 * k <= acc <= 10000 * k,
        decreases rest,
    {
        let sq = rest.trailing_zeros() as usize;
        proof {
            lemma_pop_step(rest, sq as u64);
        }
        let idx = if flipped { sq ^ 56 } else { sq };
        proof {
            crate::bits::lemma_usize_bits(sq, 0);
        }
        acc = acc + t[idx] as i64;
        k = k + 1;
        rest = rest & !(1u64 << (sq as u64));
    }
    acc
}

/// The squares a piece of kind `kind` and color `color` on `s` may move to or capture on,
/// counted for mobility: a pawn's captures, otherwise its attacks off its own pieces.
pub open spec fn mobility_bb(kind: int, color: int, s: int, occ: [u64; 3]) -> u64 {
    let own = occ[color];
    if kind == 0 {
        pawn_bb(color, s) & occ[1 - color]
    } else if kind == 1 {
        knight_bb(s) & !own
    } else if kind == 2 {
        bishop_bb(s, occ[2]) & !own
    } else if kind == 3 {
        rook_bb(s, occ[2]) & !own
    } else if kind == 4 {
        queen_bb(s, occ[2]) & !own
    } else {
        king_bb(s) & !own
    }
}

pub open spec fn mobility_at(kind: int, color: int, occ: [u64; 3]) -> spec_fn(int) -> int {
    |s: int| popcount(mobility_bb(kind, color, s, occ)) as int
}

/// The mobility of the pieces of `pieces`, of kind `kind` and color `color`.
fn mobility_sum(tables: &AttackTables, pieces: u64, kind: usize, color: usize, occ: [u64; 3]) -> (r: i64)
    requires
        tables.wf(),
        kind < 6,
        color < 2,
    ensures
        r == sum_over(pieces, mobility_at(kind as int, color as int, occ)),
        0 <= r <= 4096,
{
    let ghost f = mobility_at(kind as int, color as int, occ);
    let mut acc: i64 = 0;
    let mut rest = pieces;
    let mut k: i64 = 0;
    proof {
        lemma_popcount_le_64(pieces);
    }
    while rest != 0
        invariant
            tables.wf(),
            kind < 6,
            color < 2,
            f == mobility_at(kind as int, color as int, occ),
            acc + sum_over(rest, f) == sum_over(pieces, f),
            k + popcount(rest) == popcount(pieces),
            popcount(pieces) <= 64,
            0 <= k <= 64,
            0 <= acc <= 64 * k,
        decreases rest,
    {
        let sq = rest.trailing_zeros() as usize;
        proof {
            lemma_pop_step(rest, sq as u64);
        }
        let own = occ[color];
        let b = if kind == 0 {
            tables.pawn[color][sq] & occ[1 - color]
        } else if kind == 1 {
            tables.knight[sq] & !own
        } else if kind == 2 {
            get_bishop_attacks(tables, sq, occ[2]) & !own
        } else if kind == 3 {
            get_rook_attacks(tables, sq, occ[2]) & !own
        } else if kind == 4 {
            get_queen_attacks(tables, sq, occ[2]) & !own
        } else {
            tables.king[sq] & !own
        };
        let c = b.count_ones();
        proof {
            lemma_popcount_le_64(b);
            assert(c as int == f(sq as int));
        }
        acc = acc + c as i64;
        k = k + 1;
        rest = rest & !(1u64 << (sq as u64));
    }
    acc
}

// ---------------------------------------------------------------------------
// pawn structure
pub open spec fn file_a() -> u64 {
    0x0101010101010101u64
}

/// The files next to file `f`.
pub open spec fn close_files(f: int) -> u64 {
    (if f > 0 {
        file_a() << (f - 1) as u64
    } else {
        0u64
    }) | (if f < 7 {
        file_a() << (f + 1) as u64
    } else {
        0u64
    })
}

/// The squares ahead of a pawn of `color` on `s`, on its file.
pub open spec fn pawn_span(color: int, s: int) -> u64 {
    let file = file_a() << (s % 8) as u64;
    let row = s / 8;
    if color == 0 {
        file & (((1u64 << (8 * row) as u64) - 1) as u64)
    } else if row == 7 {
        0
    } else {
        file & (u64::MAX << (8 * (row + 1)) as u64)
    }
}

pub open spec fn close_files_at() -> spec_fn(int) -> u64 {
    |s: int| close_files(s % 8)
}

pub open spec fn spans_at(color: int) -> spec_fn(int) -> u64 {
    |s: int| pawn_span(color, s)
}

proof fn lemma_or_assoc(a: u64, b: u64, c: u64)
    ensures
        (a | b) | c == a | (b | c),
        a | 0 == a,
        0 | a == a,
{
    crate::bits::lemma_u64_laws(a, b, c);
}

/// For the pawns of `pawns`: the files next to them (`which` 0), or the squares ahead of
/// them for white (1) or black (2).
fn pawn_union(pawns: u64, which: usize) -> (r: u64)
    requires
        which < 3,
    ensures
        r == union_over(
            pawns,
            if which == 0 {
                close_files_at()
            } else if which == 1 {
                spans_at(0)
            } else {
                spans_at(1)
            },
        ),
{
    let ghost f = if which == 0 {
        close_files_at()
    } else if which == 1 {
        spans_at(0)
    } else {
        spans_at(1)
    };
    let mut acc: u64 = 0;
    let mut rest = pawns;
    proof {
        lemma_or_assoc(union_over(pawns, f), 0, 0);
    }
    while rest != 0
        invariant
            which < 3,
            f == (if which == 0 {
                close_files_at()
            } else if which == 1 {
                spans_at(0)
            } else {
                spans_at(1)
            }),
            acc | union_over(rest, f) == union_over(pawns, f),
        decreases rest,
    {
        let sq = rest.trailing_zeros() as u64;
        proof {
            lemma_pop_step(rest, sq);
        }
        let file_a: u64 = 0x0101010101010101;
        let col = sq % 8;
        let row = sq / 8;
        let v: u64 = if which == 0 {
            (if col > 0 { file_a << (col - 1) } else { 0 }) | (if col < 7 { file_a << (col + 1) } else { 0 })
        } else if which == 1 {
            proof {
                assert(row < 8);
                assert(8 * row < 64);
                crate::bits::lemma_u64_squares(0, 0, (8 * row) as u64, 0);
            }
            (file_a << col) & ((1u64 << (8 * row)) - 1)
        } else if row == 7 {
            0
        } else {
            (file_a << col) & (u64::MAX << (8 * (row + 1)))
        };
        proof {
            assert(v == f(sq as int));
            lemma_or_assoc(acc, v, union_over(clear_low(rest), f));
        }
        acc = acc | v;
        rest = rest & !(1u64 << sq);
    }
    proof {
        lemma_or_assoc(acc, 0, 0);
    }
    acc
}

// ---------------------------------------------------------------------------
// the evaluation
/// `a / b` rounded toward zero, as integer division does.
pub open spec fn div_trunc(a: int, b: int) -> int {
    if a >= 0 {
        a / b
    } else {
        -((-a) / b)
    }
}

/// Middlegame and endgame square values of the pieces of kind `i`, white's minus black's.
pub open spec fn table_terms(b: Board, w: EvalWeights, i: int) -> (int, int) {
    (
        sum_over(b.pieceboards[i], table_at(w.midgame[i], false)) - sum_over(
            b.pieceboards[i + 6],
            table_at(w.midgame[i], true),
        ),
        sum_over(b.pieceboards[i], table_at(w.endgame[i], false)) - sum_over(
            b.pieceboards[i + 6],
            table_at(w.endgame[i], true),
        ),
    )
}

/// Mobility of the pieces of kind `i`, white's minus black's.
pub open spec fn mobility_term(b: Board, i: int) -> int {
    sum_over(b.pieceboards[i], mobility_at(i, 0, b.occupancies)) - sum_over(
        b.pieceboards[i + 6],
        mobility_at(i, 1, b.occupancies),
    )
}

/// Mobility of a queen on each king's square, white's minus black's.
pub open spec fn virtual_mobility(b: Board) -> int {
    sum_over(b.pieceboards[5], mobility_at(4, 0, b.occupancies)) - sum_over(
        b.pieceboards[11],
        mobility_at(4, 1, b.occupancies),
    )
}

/// The game phase: the phase weights of all pieces on the board.
pub open spec fn game_phase(b: Board, w: EvalWeights) -> int {
    w.phase[0] * (popcount(b.pieceboards[0]) + popcount(b.pieceboards[6])) + w.phase[1] * (popcount(
        b.pieceboards[1],
    ) + popcount(b.pieceboards[7])) + w.phase[2] * (popcount(b.pieceboards[2]) + popcount(
        b.pieceboards[8],
    )) + w.phase[3] * (popcount(b.pieceboards[3]) + popcount(b.pieceboards[9])) + w.phase[4] * (
    popcount(b.pieceboards[4]) + popcount(b.pieceboards[10])) + w.phase[5] * (popcount(
        b.pieceboards[5],
    ) + popcount(b.pieceboards[11]))
}

pub open spec fn left_of(x: u64) -> u64 {
    (x >> 1u64) & NOT_H_FILE
}

pub open spec fn right_of(x: u64) -> u64 {
    (x << 1u64) & NOT_A_FILE
}

/// Passed, isolated and doubled pawns, white's minus black's.
pub open spec fn structure_counts(b: Board) -> (int, int, int) {
    let pb = b.pieceboards;
    let wiso = union_over(pb[0], close_files_at());
    let biso = union_over(pb[6], close_files_at());
    let wspan = union_over(pb[0], spans_at(0));
    let bspan = union_over(pb[6], spans_at(1));
    let doubled = popcount(wspan & pb[0]) - popcount(pb[6] & bspan);
    let passed = popcount(!(bspan | left_of(bspan) | right_of(bspan)) & pb[0]) - popcount(
        !(wspan | left_of(wspan) | right_of(wspan)) & pb[6],
    );
    let isolated = popcount(pb[0] & !wiso) - popcount(pb[6] & !biso);
    (passed, isolated, doubled)
}

/// Mobility of pawn steps: white pawns shifted a rank toward the first rank and black pawns
/// toward the eighth, onto empty squares; white's minus black's.
pub open spec fn pawn_step_mobility(b: Board) -> int {
    popcount((b.pieceboards[0] << 8u64) & !b.occupancies[2]) - popcount(
        (b.pieceboards[6] >> 8u64) & !b.occupancies[2],
    )
}

pub open spec fn total_mobility(b: Board) -> int {
    mobility_term(b, 0) + mobility_term(b, 1) + mobility_term(b, 2) + mobility_term(b, 3)
        + mobility_term(b, 4) + mobility_term(b, 5) + pawn_step_mobility(b)
}

/// The middlegame score from white's side.
pub open spec fn midgame_score(b: Board, w: EvalWeights) -> int {
    let (passed, isolated, doubled) = structure_counts(b);
    table_terms(b, w, 0).0 + table_terms(b, w, 1).0 + table_terms(b, w, 2).0 + table_terms(b, w, 3).0
        + table_terms(b, w, 4).0 + table_terms(b, w, 5).0 + passed * w.structure[0][0] + isolated
        * w.structure[0][1] + doubled * w.structure[0][2] + div_trunc(
        total_mobility(b),
        w.mobility_scale as int,
    )
}

/// The endgame score from white's side.
pub open spec fn endgame_score(b: Board, w: EvalWeights) -> int {
    let (passed, isolated, doubled) = structure_counts(b);
    table_terms(b, w, 0).1 + table_terms(b, w, 1).1 + table_terms(b, w, 2).1 + table_terms(b, w, 3).1
        + table_terms(b, w, 4).1 + table_terms(b, w, 5).1 + passed * w.structure[1][0] + isolated
        * w.structure[1][1] + doubled * w.structure[1][2] + div_trunc(
        total_mobility(b) + virtual_mobility(b),
        w.mobility_scale as int,
    )
}

/// The middlegame and endgame scores blended by the phase, rounded toward zero.
pub open spec fn tapered(mid: int, end: int, phase: int, w: EvalWeights) -> int {
    if phase >= w.midgame_phase {
        mid
    } else if phase <= w.endgame_phase {
        end
    } else {
        div_trunc(
            mid * (phase - w.endgame_phase) + end * (w.midgame_phase - phase),
            w.midgame_phase - w.endgame_phase,
        )
    }
}

/// Only kings and at most two knights or bishops are left.
pub open spec fn insufficient_material(b: Board) -> bool {
    let pb = b.pieceboards;
    &&& popcount(b.occupancies[2]) <= 4
    &&& b.occupancies[2] == (pb[5] | pb[11]) | (pb[1] | pb[2] | pb[7] | pb[8])
}

/// With only the two kings and at most two knights or bishops between them (at most four
/// pieces, every occupied square holding a king, a knight or a bishop), the position is a
/// draw: its evaluation is the draw score, bishops and knights alike.
pub proof fn lemma_bare_minor_pieces_draw(b: Board, w: EvalWeights, ply: int)
    requires
        popcount(b.occupancies[2]) <= 4,
        forall|sq: u64|
            sq < 64 && #[trigger] has_bit(b.occupancies[2], sq) ==> has_bit(
                b.pieceboards[5] | b.pieceboards[11],
                sq,
            ) || has_bit(b.pieceboards[1] | b.pieceboards[7], sq) || has_bit(b.pieceboards[2] | b.pieceboards[8], sq),
        forall|k: int| 0 <= k < 12 ==> #[trigger] (b.pieceboards[k] & !b.occupancies[2]) == 0,
    ensures
        spec_evaluate(b, w, ply) == spec_draw_score(ply),
{
    let occ = b.occupancies[2];
    let n1 = b.pieceboards[1];
    let b1 = b.pieceboards[2];
    let k1 = b.pieceboards[5];
    let n2 = b.pieceboards[7];
    let b2 = b.pieceboards[8];
    let k2 = b.pieceboards[11];
    let u = (k1 | k2) | (n1 | b1 | n2 | b2);
    assert(u == (b.pieceboards[5] | b.pieceboards[11]) | (b.pieceboards[1] | b.pieceboards[2] | b.pieceboards[7]
        | b.pieceboards[8]));
    assert((n1 & !occ) == 0 && (b1 & !occ) == 0 && (k1 & !occ) == 0);
    assert((n2 & !occ) == 0 && (b2 & !occ) == 0 && (k2 & !occ) == 0);
    assert forall|t: u64| t < 64 implies #[trigger] has_bit(occ, t) == has_bit(u, t) by {
        assert(((u >> t) & 1u64 == 1u64) ==> ((occ >> t) & 1u64 == 1u64)) by (bit_vector)
            requires
                u == (k1 | k2) | (n1 | b1 | n2 | b2),
                (n1 & !occ) == 0 && (b1 & !occ) == 0 && (k1 & !occ) == 0,
                (n2 & !occ) == 0 && (b2 & !occ) == 0 && (k2 & !occ) == 0,
        ;
        assert((((k1 | k2) >> t) & 1u64 == 1u64 || ((n1 | n2) >> t) & 1u64 == 1u64 || ((b1 | b2) >> t) & 1u64
            == 1u64) ==> (u >> t) & 1u64 == 1u64) by (bit_vector)
            requires
                u == (k1 | k2) | (n1 | b1 | n2 | b2),
        ;
    }
    crate::bits::lemma_bits_ext(occ, u);
}

/// The evaluation from the side to move: four times the tapered score, or the draw score
/// when too little material is left.
pub open spec fn spec_evaluate(b: Board, w: EvalWeights, ply: int) -> i32 {
    if insufficient_material(b) {
        spec_draw_score(ply)
    } else {
        let side = if b.side == Some(0u8) {
            1int
        } else {
            -1int
        };
        (tapered(midgame_score(b, w), endgame_score(b, w), game_phase(b, w), w) * 4 * side) as i32
    }
}

/// Square-table and mobility terms of the pieces of kind `i`: middlegame, endgame, mobility.
fn kind_terms(tables: &AttackTables, w: &EvalWeights, b: &Board, i: usize) -> (r: (i64, i64, i64))
    requires
        tables.wf(),
        w.wf(),
        i < 6,
    ensures
        r.0 == table_terms(*b, *w, i as int).0,
        r.1 == table_terms(*b, *w, i as int).1,
        r.2 == mobility_term(*b, i as int),
        -1280000 <= r.0 <= 1280000,
        -1280000 <= r.1 <= 1280000,
        -4096 <= r.2 <= 4096,
{
    let mid = table_sum(&w.midgame[i], b.pieceboards[i], false) - table_sum(&w.midgame[i], b.pieceboards[i + 6], true);
    let end = table_sum(&w.endgame[i], b.pieceboards[i], false) - table_sum(&w.endgame[i], b.pieceboards[i + 6], true);
    let mob = mobility_sum(tables, b.pieceboards[i], i, 0, b.occupancies) - mobility_sum(tables, b.pieceboards[i + 6], i, 1, b.occupancies);
    (mid, end, mob)
}

/// `a / b` rounded toward zero.
pub(crate) fn div_toward_zero(a: i64, b: i64) -> (q: i64)
    requires
        b >= 1,
        -1000000000000 <= a <= 1000000000000,
    ensures
        q == div_trunc(a as int, b as int),
{
    if a >= 0 {
        a / b
    } else {
        -((-a) / b)
    }
}

/// The game phase of `b`.
fn phase_of(b: &Board, weights: &EvalWeights) -> (phase: i64)
    requires
        weights.wf(),
    ensures
        phase == game_phase(*b, *weights),
        0 <= phase <= 76800,
{
    let mut phase: i64 = 0;
    let mut k: usize = 0;
    while k < 6
        invariant
            weights.wf(),
            k <= 6,
            0 <= phase <= 12800 * k,
            phase == partial_phase(*b, *weights, k as int),
        decreases 6 - k,
    {
        let c = b.pieceboards[k].count_ones() as i64 + b.pieceboards[k + 6].count_ones() as i64;
        let pw = weights.phase[k] as i64;
        proof {
            lemma_popcount_le_64(b.pieceboards[k as int]);
            lemma_popcount_le_64(b.pieceboards[k + 6]);
            assert(0 <= pw * c <= 12800) by (nonlinear_arith)
                requires
                    0 <= pw <= 100,
                    0 <= c <= 128,
            ;
        }
        phase = phase + pw * c;
        k = k + 1;
    }
    proof {
        reveal_with_fuel(partial_phase, 7);
    }
    phase
}

/// Passed, isolated and doubled pawns of `b`, white's minus black's.
fn structure_of(b: &Board) -> (r: (i64, i64, i64))
    ensures
        r.0 == structure_counts(*b).0,
        r.1 == structure_counts(*b).1,
        r.2 == structure_counts(*b).2,
        -64 <= r.0 <= 64,
        -64 <= r.1 <= 64,
        -64 <= r.2 <= 64,
{
    let pb = b.pieceboards;
    let wiso = pawn_union(pb[0], 0);
    let biso = pawn_union(pb[6], 0);
    let wspan = pawn_union(pb[0], 1);
    let bspan = pawn_union(pb[6], 2);
    proof {
        lemma_popcount_le_64(wspan & pb[0]);
        lemma_popcount_le_64(pb[6] & bspan);
        lemma_popcount_le_64(!(bspan | left_of(bspan) | right_of(bspan)) & pb[0]);
        lemma_popcount_le_64(!(wspan | left_of(wspan) | right_of(wspan)) & pb[6]);
        lemma_popcount_le_64(pb[0] & !wiso);
        lemma_popcount_le_64(pb[6] & !biso);
    }
    let doubled = (wspan & pb[0]).count_ones() as i64 - (pb[6] & bspan).count_ones() as i64;
    let passed = (!(bspan | bspan.left() | bspan.right()) & pb[0]).count_ones() as i64 - (!(wspan
        | wspan.left() | wspan.right()) & pb[6]).count_ones() as i64;
    let isolated = (pb[0] & !wiso).count_ones() as i64 - (pb[6] & !biso).count_ones() as i64;
    (passed, isolated, doubled)
}

/// The middlegame and endgame scores blended by the phase.
fn taper(midgame: i64, endgame: i64, phase: i64, weights: &EvalWeights) -> (t: i64)
    requires
        weights.wf(),
        -20000000 <= midgame <= 20000000,
        -20000000 <= endgame <= 20000000,
        0 <= phase <= 76800,
    ensures
        t == tapered(midgame as int, endgame as int, phase as int, *weights),
        -20000000 <= t <= 20000000,
{
    let mph = weights.midgame_phase as i64;
    let eph = weights.endgame_phase as i64;
    if phase >= mph {
        midgame
    } else if phase <= eph {
        endgame
    } else {
        proof {
            assert(-200000000000 <= midgame * (phase - eph) <= 200000000000) by (nonlinear_arith)
                requires
                    -20000000 <= midgame <= 20000000,
                    0 <= phase - eph <= 10000,
            ;
            assert(-200000000000 <= endgame * (mph - phase) <= 200000000000) by (nonlinear_arith)
                requires
                    -20000000 <= endgame <= 20000000,
                    0 <= mph - phase <= 10000,
            ;
        }
        let num = midgame * (phase - eph) + endgame * (mph - phase);
        let den = mph - eph;
        proof {
            assert(-20000000 * den <= num <= 20000000 * den) by (nonlinear_arith)
                requires
                    -20000000 <= midgame <= 20000000,
                    -20000000 <= endgame <= 20000000,
                    0 <= phase - eph <= 10000,
                    0 <= mph - phase <= 10000,
                    den == (phase - eph) + (mph - phase),
                    num == midgame * (phase - eph) + endgame * (mph - phase),
            ;
            assert(-20000000 <= div_trunc(num as int, den as int) <= 20000000) by (nonlinear_arith)
                requires
                    den >= 1,
                    -20000000 * den <= num <= 20000000 * den,
            ;
        }
        div_toward_zero(num, den)
    }
}

proof fn lemma_weighted(x: i64, w: i32)
    requires
        -64 <= x <= 64,
        -10000 <= w <= 10000,
    ensures
        -640000 <= x * w <= 640000,
{
    assert(-640000 <= x * w <= 640000) by (nonlinear_arith)
        requires
            -64 <= x <= 64,
            -10000 <= w <= 10000,
    ;
}

impl Board {
    /// The static evaluation of the position from the side to move, in quarter units.
    pub fn evaluate(&mut self, tables: &AttackTables, weights: &EvalWeights, ply: usize) -> (score: i32)
        requires
            tables.wf(),
            weights.wf(),
        ensures
            *final(self) == *old(self),
            score == spec_evaluate(*old(self), *weights, ply as int),
            -80000000 <= score <= 80000000,
            score % 4 == 0,
    {
        let pb = self.pieceboards;
        let occ = self.occupancies;
        if occ[2].count_ones() <= 4 {
            let kings = pb[5] | pb[11];
            let bn = pb[1] | pb[2] | pb[7] | pb[8];
            if occ[2] == kings | bn {
                return draw_score(ply);
            }
        }
        let b = *self;
        let t0 = kind_terms(tables, weights, &b, 0);
        let t1 = kind_terms(tables, weights, &b, 1);
        let t2 = kind_terms(tables, weights, &b, 2);
        let t3 = kind_terms(tables, weights, &b, 3);
        let t4 = kind_terms(tables, weights, &b, 4);
        let t5 = kind_terms(tables, weights, &b, 5);
        let virtual_mob = mobility_sum(tables, pb[5], 4, 0, occ) - mobility_sum(tables, pb[11], 4, 1, occ);
        let (passed, isolated, doubled) = structure_of(&b);
        proof {
            lemma_popcount_le_64((pb[0] << 8u64) & !occ[2]);
            lemma_popcount_le_64((pb[6] >> 8u64) & !occ[2]);
        }
        let steps = ((pb[0] << 8) & !occ[2]).count_ones() as i64 - ((pb[6] >> 8) & !occ[2]).count_ones() as i64;
        let mobility = t0.2 + t1.2 + t2.2 + t3.2 + t4.2 + t5.2 + steps;
        let s = weights.structure;
        proof {
            lemma_weighted(passed, s[0][0]);
            lemma_weighted(isolated, s[0][1]);
            lemma_weighted(doubled, s[0][2]);
            lemma_weighted(passed, s[1][0]);
            lemma_weighted(isolated, s[1][1]);
            lemma_weighted(doubled, s[1][2]);
        }
        let mob_mid = div_toward_zero(mobility, weights.mobility_scale as i64);
        let mob_end = div_toward_zero(mobility + virtual_mob, weights.mobility_scale as i64);
        proof {
            assert(-30000 <= mob_mid <= 30000 && -30000 <= mob_end <= 30000) by (nonlinear_arith)
                requires
                    -30000 <= mobility <= 30000,
                    -30000 <= mobility + virtual_mob <= 30000,
                    weights.mobility_scale >= 1,
                    mob_mid == div_trunc(mobility as int, weights.mobility_scale as int),
                    mob_end == div_trunc((mobility + virtual_mob) as int, weights.mobility_scale as int),
            ;
        }
        let midgame = t0.0 + t1.0 + t2.0 + t3.0 + t4.0 + t5.0 + passed * s[0][0] as i64 + isolated
            * s[0][1] as i64 + doubled * s[0][2] as i64 + mob_mid;
        let endgame = t0.1 + t1.1 + t2.1 + t3.1 + t4.1 + t5.1 + passed * s[1][0] as i64 + isolated
            * s[1][1] as i64 + doubled * s[1][2] as i64 + mob_end;
        let phase = phase_of(&b, weights);
        let tapered_score = taper(midgame, endgame, phase, weights);
        let side: i64 = if self.side == Some(0) { 1 } else { -1 };
        proof {
            let t = tapered_score as int;
            assert((t * 4 * side) % 4 == 0) by (nonlinear_arith)
                requires
                    side == 1 || side == -1,
            ;
        }
        (tapered_score * 4 * side) as i32
    }
}

/// The phase weights of the pieces of the first `k` kinds.
pub open spec fn partial_phase(b: Board, w: EvalWeights, k: int) -> int
    decreases k,
{
    if k <= 0 {
        0
    } else {
        partial_phase(b, w, k - 1) + w.phase[k - 1] * (popcount(b.pieceboards[k - 1]) + popcount(
            b.pieceboards[k + 5],
        ))
    }
}

impl EvalWeights {
    /// Material values only: flat square tables, the usual phase weights of minor pieces,
    /// rooks and queens, and small pawn-structure terms.
    pub fn material() -> (w: EvalWeights)
        ensures
            w.wf(),
            w.phase@ == seq![0i32, 1, 1, 2, 4, 0],
            forall|s: int|
                0 <= s < 64 ==> {
                    &&& #[trigger] w.midgame[0][s] == 82 && w.midgame[1][s] == 337 && w.midgame[2][s] == 365
                    &&& w.midgame[3][s] == 477 && w.midgame[4][s] == 1025 && w.midgame[5][s] == 0
                    &&& w.endgame[0][s] == 94 && w.endgame[1][s] == 281 && w.endgame[2][s] == 297
                    &&& w.endgame[3][s] == 512 && w.endgame[4][s] == 936 && w.endgame[5][s] == 0
                },
            w.structure[0][0] == 10 && w.structure[0][1] == -10 && w.structure[0][2] == -10,
            w.structure[1][0] == 20 && w.structure[1][1] == -20 && w.structure[1][2] == -20,
            w.mobility_scale == 4,
            w.midgame_phase == 24,
            w.endgame_phase == 0,
    {
        let w = EvalWeights {
            phase: [0, 1, 1, 2, 4, 0],
            midgame: [[82; 64], [337; 64], [365; 64], [477; 64], [1025; 64], [0; 64]],
            endgame: [[94; 64], [281; 64], [297; 64], [512; 64], [936; 64], [0; 64]],
            structure: [[10, -10, -10], [20, -20, -20]],
            mobility_scale: 4,
            midgame_phase: 24,
            endgame_phase: 0,
        };
        assert(forall|s: int| 0 <= s < 64 ==> w.midgame[0][s] == 82);
        w
    }
}

// ---------------------------------------------------------------------------
// static exchange evaluation
/// A piece of either color stands on `sq`.
pub open spec fn occupied_by_piece(b: Board, sq: int) -> bool {
    exists|j: int| 0 <= j < 6 && has_bit(#[trigger] (b.pieceboards[j] | b.pieceboards[j + 6]), sq as u64)
}

/// Kind `k` is the first kind with a piece of either color on `sq`.
pub open spec fn first_kind(b: Board, sq: int, k: int) -> bool {
    &&& 0 <= k < 6
    &&& has_bit(b.pieceboards[k] | b.pieceboards[k + 6], sq as u64)
    &&& forall|j: int| 0 <= j < k ==> !has_bit(#[trigger] (b.pieceboards[j] | b.pieceboards[j + 6]), sq as u64)
}

/// The kind of the piece on `sq`.
pub open spec fn kind_on(b: Board, sq: int) -> int {
    choose|k: int| #[trigger] first_kind(b, sq, k)
}

proof fn lemma_kind_on(b: Board, sq: int, k: int)
    requires
        0 <= k < 6,
        has_bit(b.pieceboards[k] | b.pieceboards[k + 6], sq as u64),
        forall|j: int| 0 <= j < k ==> !has_bit(#[trigger] (b.pieceboards[j] | b.pieceboards[j + 6]), sq as u64),
    ensures
        kind_on(b, sq) == k,
{
    assert(first_kind(b, sq, k));
    let c = kind_on(b, sq);
    assert(first_kind(b, sq, c));
    if c < k {
        assert(!has_bit(b.pieceboards[c] | b.pieceboards[c + 6], sq as u64));
    } else if k < c {
        assert(!has_bit(b.pieceboards[k] | b.pieceboards[k + 6], sq as u64));
    }
}

/// The first of the six piece kinds from `i` on whose board from `base` shares a square with
/// `attackers`; 6 when there is none.
pub open spec fn least_from(pb: [u64; 12], base: int, attackers: u64, i: int) -> int
    decreases 6 - i,
{
    if i >= 6 {
        6
    } else if attackers & pb[base + i] != 0 {
        i
    } else {
        least_from(pb, base, attackers, i + 1)
    }
}

proof fn lemma_least_from(pb: [u64; 12], base: int, attackers: u64, i: int)
    requires
        0 <= i,
        0 <= base <= 6,
    ensures
        i <= least_from(pb, base, attackers, i) <= 6 || (i > 6 && least_from(pb, base, attackers, i) == 6),
        least_from(pb, base, attackers, i) < 6 ==> attackers & pb[base + least_from(pb, base, attackers, i)] != 0,
    decreases 6 - i,
{
    if i < 6 && attackers & pb[base + i] == 0 {
        lemma_least_from(pb, base, attackers, i + 1);
    }
}

/// The first of the six piece boards from `base` that shares a square with `attackers`.
fn least_attacker(pb: &[u64; 12], base: usize, attackers: u64) -> (r: Option<usize>)
    requires
        base <= 6,
    ensures
        r == (if least_from(*pb, base as int, attackers, 0) < 6 {
            Some(least_from(*pb, base as int, attackers, 0) as usize)
        } else {
            None
        }),
{
    let mut i: usize = 0;
    while i < 6
        invariant
            base <= 6,
            i <= 6,
            least_from(*pb, base as int, attackers, 0) == least_from(*pb, base as int, attackers, i as int),
        decreases 6 - i,
    {
        if attackers & pb[base + i] != 0 {
            return Some(i);
        }
        i = i + 1;
    }
    None
}

pub proof fn lemma_pop_in(x: u64, s: u64)
    requires
        s < 64,
        has_bit(x, s),
    ensures
        x & !(1u64 << s) < x,
{
    crate::bits::lemma_u64_squares(x, 0, s, 0);
}

/// The attackers that stand behind a piece of kind `i` of the side from `base`, once it has
/// left `to`: sliders along the diagonals after a pawn, bishop or queen, along the lines
/// after a rook or queen.
pub open spec fn revealed(pb: [u64; 12], base: int, i: int, to: int, occ: u64) -> u64 {
    let bishops = bishop_bb(to, occ) & (pb[base + 2] | pb[base + 4]);
    let rooks = rook_bb(to, occ) & (pb[base + 3] | pb[base + 4]);
    if i == 0 || i == 2 {
        bishops
    } else if i == 3 {
        rooks
    } else if i == 4 {
        bishops | rooks
    } else {
        0
    }
}

/// The exchange on `to` from the state where `side` has just captured: the other side
/// recaptures with its least valuable attacker while that is worth it. `swap` is what the
/// side to recapture must win back, `res` whether the side that started the exchange is
/// ahead. True when it ends ahead.
pub open spec fn see_loop(b: Board, to: int, side: int, occ: u64, attadef: u64, swap: int, res: int) -> bool
    decreases occ,
{
    let side2 = if side == 0 {
        1int
    } else {
        0int
    };
    let base = 6 * side2;
    let ad = attadef & occ;
    let stm = ad & b.occupancies[side2];
    let res2 = if res == 0 {
        1int
    } else {
        0int
    };
    if stm == 0 {
        res == 1
    } else {
        let i = least_from(b.pieceboards, base, stm, 0);
        if i >= 6 || i < 0 {
            res2 == 1
        } else {
            let swap2 = PIECEWEIGHT[i] - swap;
            if swap2 < res2 {
                res2 == 1
            } else {
                let bb = stm & b.pieceboards[base + i];
                let t = lowest(bb);
                let occ2 = occ & !(1u64 << t);
                if bb != 0 && has_bit(occ, t) && t < 64 {
                    proof {
                        lemma_pop_in(occ, t);
                    }
                    see_loop(b, to, side2, occ2, ad | revealed(b.pieceboards, base, i, to, occ2), swap2, res2)
                } else {
                    res2 == 1
                }
            }
        }
    }
}

/// Along the exchange, a smaller balance is no worse for the side the result is about
/// (`res == 1`) and no better for the other (`res == 0`).
proof fn lemma_see_loop_mono(b: Board, to: int, side: int, occ: u64, attadef: u64, s1: int, s2: int, res: int)
    requires
        s1 <= s2,
        res == 0 || res == 1,
    ensures
        res == 1 && see_loop(b, to, side, occ, attadef, s2, res) ==> see_loop(b, to, side, occ, attadef, s1, res),
        res == 0 && see_loop(b, to, side, occ, attadef, s1, res) ==> see_loop(b, to, side, occ, attadef, s2, res),
    decreases occ,
{
    let side2 = if side == 0 {
        1int
    } else {
        0int
    };
    let base = 6 * side2;
    let ad = attadef & occ;
    let stm = ad & b.occupancies[side2];
    let res2 = if res == 0 {
        1int
    } else {
        0int
    };
    if stm != 0 {
        let i = least_from(b.pieceboards, base, stm, 0);
        if 0 <= i < 6 {
            let bb = stm & b.pieceboards[base + i];
            let t = lowest(bb);
            let occ2 = occ & !(1u64 << t);
            if bb != 0 && has_bit(occ, t) && t < 64 {
                lemma_pop_in(occ, t);
                let w = PIECEWEIGHT[i] as int;
                lemma_see_loop_mono(
                    b,
                    to,
                    side2,
                    occ2,
                    ad | revealed(b.pieceboards, base, i, to, occ2),
                    w - s2,
                    w - s1,
                    res2,
                );
            }
        }
    }
}

/// Static exchange evaluation is monotone in the threshold: a move that reaches a threshold
/// reaches every lower one.
pub proof fn lemma_see_monotone(b: Board, m: u16, t1: int, t2: int)
    requires
        t1 <= t2,
        see_spec(b, m, t2),
    ensures
        see_spec(b, m, t1),
{
    if spec_extra(m) == 4 {
        let from = spec_initial(m);
        let to = spec_final(m);
        let pb = b.pieceboards;
        let swap_1 = PIECEWEIGHT[kind_on(b, to)] - t1;
        let swap_2 = PIECEWEIGHT[kind_on(b, to)] - t2;
        let a1 = PIECEWEIGHT[kind_on(b, from)] - swap_1;
        let a2 = PIECEWEIGHT[kind_on(b, from)] - swap_2;
        if a1 > 0 && a2 > 0 {
            let side = match b.side {
                Some(x) => x as int,
                None => 0,
            };
            let occ = b.occupancies[2] ^ (1u64 << (from as u64)) ^ (1u64 << (to as u64));
            let attadef = (pawn_bb(0, to) & pb[6]) | (pawn_bb(1, to) & pb[0]) | (knight_bb(to) & (pb[1]
                | pb[7])) | (bishop_bb(to, occ) & (pb[2] | pb[4] | pb[8] | pb[10])) | (rook_bb(to, occ)
                & (pb[3] | pb[4] | pb[9] | pb[10])) | (king_bb(to) & (pb[6] | pb[11]));
            lemma_see_loop_mono(b, to, side, occ, attadef, a1, a2, 1);
        }
    }
}

/// The static exchange evaluation of move `m` against `threshold`: a plain capture whose
/// victim is worth at least the threshold, and which either costs nothing even if the
/// capturing piece is lost or wins the exchange that follows; any other move when the
/// threshold is at most 0.
pub open spec fn see_spec(b: Board, m: u16, threshold: int) -> bool {
    let from = spec_initial(m);
    let to = spec_final(m);
    let pb = b.pieceboards;
    if spec_extra(m) != 4 {
        0 >= threshold
    } else {
        let swap = PIECEWEIGHT[kind_on(b, to)] - threshold;
        if swap < 0 {
            false
        } else {
            let swap2 = PIECEWEIGHT[kind_on(b, from)] - swap;
            if swap2 <= 0 {
                true
            } else {
                let side = match b.side {
                    Some(x) => x as int,
                    None => 0,
                };
                let occ = b.occupancies[2] ^ (1u64 << (from as u64)) ^ (1u64 << (to as u64));
                let attadef = (pawn_bb(0, to) & pb[6]) | (pawn_bb(1, to) & pb[0]) | (knight_bb(to) & (pb[1]
                    | pb[7])) | (bishop_bb(to, occ) & (pb[2] | pb[4] | pb[8] | pb[10])) | (rook_bb(to, occ)
                    & (pb[3] | pb[4] | pb[9] | pb[10])) | (king_bb(to) & (pb[6] | pb[11]));
                see_loop(b, to, side, occ, attadef, swap2, 1)
            }
        }
    }
}

impl Board {
    /// Whether the capture `m` gains at least `threshold` when both sides keep recapturing on
    /// its target with their least valuable piece, and may stop when that is better. A move
    /// that is not a plain capture gains nothing.
    pub fn see(&self, tables: &AttackTables, m: &Move, threshold: i32) -> (good: bool)
        requires
            tables.wf(),
            self.side is None || self.side == Some(0u8) || self.side == Some(1u8),
            spec_extra(*m) == 4 ==> occupied_by_piece(*self, spec_final(*m)) && occupied_by_piece(
                *self,
                spec_initial(*m),
            ),
            threshold > i32::MIN + 10000,
        ensures
            good == see_spec(*self, *m, threshold as int),
    {
        if m.get_extra() != 4 {
            return 0 >= threshold;
        }
        let from = m.get_initial() as usize;
        let to = m.get_final() as usize;
        let victim = self.piece_on(to);
        proof {
            lemma_kind_on(*self, to as int, victim as int);
        }
        let mut swap = PIECEWEIGHT[victim] - threshold;
        if swap < 0 {
            return false;
        }
        let attacker = self.piece_on(from);
        proof {
            lemma_kind_on(*self, from as int, attacker as int);
        }
        swap = PIECEWEIGHT[attacker] - swap;
        if swap <= 0 {
            return true;
        }
        let mut side: usize = match self.side {
            Some(x) => x as usize,
            None => 0,
        };
        let pb = self.pieceboards;
        let mut occupancy = self.occupancies[2] ^ (1u64 << (from as u64)) ^ (1u64 << (to as u64));
        let mut res: i32 = 1;
        let mut attadef = (tables.pawn[0][to] & pb[6]) | (tables.pawn[1][to] & pb[0]) | (
        tables.knight[to] & (pb[1] | pb[7])) | (get_bishop_attacks(tables, to, occupancy) & (pb[2]
            | pb[4] | pb[8] | pb[10])) | (get_rook_attacks(tables, to, occupancy) & (pb[3] | pb[4]
            | pb[9] | pb[10])) | (tables.king[to] & (pb[6] | pb[11]));
        let ghost result = see_loop(*self, to as int, side as int, occupancy, attadef, swap as int, res as int);
        assert(result == see_spec(*self, *m, threshold as int));
        loop
            invariant_except_break
                0 <= swap <= 10000,
                see_loop(*self, to as int, side as int, occupancy, attadef, swap as int, res as int) == result,
            invariant
                tables.wf(),
                side <= 1,
                to < 64,
                0 <= res <= 1,
                pb == self.pieceboards,
            ensures
                (res == 1) == result,
            decreases occupancy,
        {
            let ghost side0 = side;
            let ghost occ0 = occupancy;
            let ghost ad0 = attadef;
            let ghost swap0 = swap as int;
            let ghost res0 = res as int;
            side = if side == 0 { 1 } else { 0 };
            let bigside = side * 6;
            let ghost pre = attadef;
            attadef = attadef & occupancy;
            let stmattackers = attadef & self.occupancies[side];
            if stmattackers == 0 {
                break;
            }
            res = if res == 0 { 1 } else { 0 };
            match least_attacker(&pb, bigside, stmattackers) {
                None => {
                    break;
                },
                Some(i) => {
                    proof {
                        lemma_least_from(pb, bigside as int, stmattackers, 0);
                    }
                    let bb = stmattackers & pb[bigside + i];
                    swap = PIECEWEIGHT[i] - swap;
                    if swap < res {
                        break;
                    }
                    proof {
                        lemma_lowest(bb);
                        let t = lowest(bb);
                        lemma_bit_and(stmattackers, pb[bigside + i], t);
                        lemma_bit_and(attadef, self.occupancies[side as int], t);
                        lemma_bit_and(pre, occupancy, t);
                        lemma_pop_in(occupancy, t);
                    }
                    let sq = bb.trailing_zeros() as u64;
                    occupancy = occupancy & !(1u64 << sq);
                    if i == 0 || i == 2 {
                        attadef = attadef | (get_bishop_attacks(tables, to, occupancy) & (pb[bigside + 2]
                            | pb[bigside + 4]));
                    } else if i == 3 {
                        attadef = attadef | (get_rook_attacks(tables, to, occupancy) & (pb[bigside + 3]
                            | pb[bigside + 4]));
                    } else if i == 4 {
                        attadef = attadef | (get_bishop_attacks(tables, to, occupancy) & (pb[bigside + 2]
                            | pb[bigside + 4])) | (get_rook_attacks(tables, to, occupancy) & (pb[bigside
                            + 3] | pb[bigside + 4]));
                    }
                    proof {
                        crate::bits::lemma_or_zero(ad0 & occ0);
                        crate::bits::lemma_u64_laws(
                            ad0 & occ0,
                            bishop_bb(to as int, occupancy) & (pb[bigside + 2] | pb[bigside + 4]),
                            rook_bb(to as int, occupancy) & (pb[bigside + 3] | pb[bigside + 4]),
                        );
                        assert(attadef == (ad0 & occ0) | revealed(pb, bigside as int, i as int, to as int, occupancy));
                    }
                },
            }
        }
        res == 1
    }
}

} // verus!
