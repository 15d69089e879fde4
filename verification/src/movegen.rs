//! Move generation by check and pin masks. `refresh` computes, for the side to move,
//! the squares the enemy attacks, the check mask, the pin masks and the king's moves;
//! the generators then list captures and quiet moves within those masks.
use vstd::prelude::*;
use crate::bits::{has_bit, single, lowest, clear_low, popcount, lemma_lowest, lemma_or_zero};
use crate::geometry::{row, col, abs, on_board, step, ray_sq, pawn_bb, knight_bb, king_bb, rook_bb, bishop_bb};
use crate::engine::{Board, side_index};
use crate::moves::{MoveStuff, spec_initial, spec_final, spec_extra, lemma_move_roundtrip};
use crate::piececonstants::{AttackTables, get_bishop_attacks, get_rook_attacks};

verus! {

// ---------------------------------------------------------------------------
// folds over the squares of a bitboard, lowest square first
/// The union of `f(s)` over the squares `s` of `bb`.
pub open spec fn union_over(bb: u64, f: spec_fn(int) -> u64) -> u64
    decreases bb,
{
    if bb == 0 {
        0
    } else {
        proof {
            lemma_lowest(bb);
        }
        f(lowest(bb) as int) | union_over(clear_low(bb), f)
    }
}

/// The intersection of `f(s)` over the squares `s` of `bb` (all squares when `bb` is empty).
pub open spec fn meet_over(bb: u64, f: spec_fn(int) -> u64) -> u64
    decreases bb,
{
    if bb == 0 {
        u64::MAX
    } else {
        proof {
            lemma_lowest(bb);
        }
        f(lowest(bb) as int) & meet_over(clear_low(bb), f)
    }
}

proof fn lemma_or_assoc(a: u64, b: u64, c: u64)
    ensures
        (a | b) | c == a | (b | c),
{
    crate::bits::lemma_u64_laws(a, b, c);
}

proof fn lemma_and_assoc(a: u64, b: u64, c: u64)
    ensures
        (a & b) & c == a & (b & c),
        a & 0xffff_ffff_ffff_ffffu64 == a,
{
    crate::bits::lemma_u64_laws(a, b, c);
}

/// Taking the lowest square off: what the loops below do at each step.
proof fn lemma_pop_lowest(rest: u64, sq: u64)
    requires
        rest != 0,
        sq == lowest(rest),
    ensures
        sq < 64,
        rest & !(1u64 << sq) == clear_low(rest),
        clear_low(rest) < rest,
{
    lemma_lowest(rest);
}

// ---------------------------------------------------------------------------
// the squares between two squares on a line
pub open spec fn sgn(x: int) -> int {
    if x > 0 {
        1
    } else if x < 0 {
        -1
    } else {
        0
    }
}

/// The king-move distance between two squares.
pub open spec fn cheb(a: int, b: int) -> int {
    let dr = abs(row(b) - row(a));
    let dc = abs(col(b) - col(a));
    if dr >= dc {
        dr
    } else {
        dc
    }
}

/// `k` and `s` are distinct squares on one rank, file or diagonal.
pub open spec fn aligned(k: int, s: int) -> bool {
    &&& on_board(k)
    &&& on_board(s)
    &&& k != s
    &&& (row(k) == row(s) || col(k) == col(s) || abs(row(s) - row(k)) == abs(col(s) - col(k)))
}

/// The first `n` squares along the ray (dr, df) from `k`.
pub open spec fn ray_steps(k: int, dr: int, df: int, n: nat) -> u64
    decreases n,
{
    if n == 0 {
        0
    } else {
        ray_steps(k, dr, df, (n - 1) as nat) | single(ray_sq(k, dr, df, n as int) as u64)
    }
}

/// The squares from `k` (excluded) to `s` (included) when they are aligned, else none.
pub open spec fn ray_between(k: int, s: int) -> u64 {
    if aligned(k, s) {
        ray_steps(k, sgn(row(s) - row(k)), sgn(col(s) - col(k)), cheb(k, s) as nat)
    } else {
        0
    }
}

/// The squares from `kingsq` (excluded) to `square` (included) when they share a line,
/// else none.
pub fn ray_between_exec(kingsq: usize, square: usize) -> (ray: u64)
    requires
        kingsq < 64,
        square < 64,
    ensures
        ray == ray_between(kingsq as int, square as int),
{
    let rk = (kingsq / 8) as i32;
    let ck = (kingsq % 8) as i32;
    let rs = (square / 8) as i32;
    let cs = (square % 8) as i32;
    let adr = if rs >= rk { rs - rk } else { rk - rs };
    let adc = if cs >= ck { cs - ck } else { ck - cs };
    if kingsq == square || !(rk == rs || ck == cs || adr == adc) {
        return 0;
    }
    let dr: i32 = if rs > rk { 1 } else if rs < rk { -1 } else { 0 };
    let df: i32 = if cs > ck { 1 } else if cs < ck { -1 } else { 0 };
    let d: i32 = if adr >= adc { adr } else { adc };
    let ghost k = kingsq as int;
    let ghost s = square as int;
    assert(row(k) == rk && col(k) == ck && row(s) == rs && col(s) == cs);
    assert(rs == rk + step(dr as int, d as int));
    assert(cs == ck + step(df as int, d as int));
    let mut ray: u64 = 0;
    let mut j: i32 = 0;
    let mut r: i32 = rk;
    let mut c: i32 = ck;
    while j < d
        invariant
            0 <= j <= d,
            1 <= d <= 7,
            0 <= rk <= 7,
            0 <= ck <= 7,
            rs == rk + step(dr as int, d as int),
            cs == ck + step(df as int, d as int),
            0 <= rs <= 7,
            0 <= cs <= 7,
            dr == -1 || dr == 0 || dr == 1,
            df == -1 || df == 0 || df == 1,
            r == rk + step(dr as int, j as int),
            c == ck + step(df as int, j as int),
            row(k) == rk,
            col(k) == ck,
            ray == ray_steps(k, dr as int, df as int, j as nat),
        decreases d - j,
    {
        j = j + 1;
        r = r + dr;
        c = c + df;
        let t = (r * 8 + c) as u64;
        assert(t as int == ray_sq(k, dr as int, df as int, j as int));
        ray = ray | (1u64 << t);
    }
    ray
}

// ---------------------------------------------------------------------------
// per-square updates of the masks
/// The ray from the king to a piece pins when exactly two pieces stand on it: the pinned
/// piece and the pinner.
pub open spec fn pin_val(k: int, s: int, occ: u64) -> u64 {
    if popcount(ray_between(k, s) & occ) == 2 {
        ray_between(k, s)
    } else {
        0
    }
}

/// The squares beside the en passant target along files: where the pawn stands.
pub open spec fn ep_neighbors(ep: u64) -> u64 {
    (ep >> 8u64) | (ep << 8u64)
}

/// A checking slider on `square` narrows the check mask to the ray between it and the king.
fn check_by_slider(kingsq: usize, square: usize, checkmask: &mut u64)
    requires
        kingsq < 64,
        square < 64,
    ensures
        *final(checkmask) == *old(checkmask) & ray_between(kingsq as int, square as int),
{
    *checkmask = *checkmask & ray_between_exec(kingsq, square);
}

/// A rook or queen on `square` pins along its ray when one other piece stands on it.
fn pin_hv(kingsq: usize, square: usize, occupancy: u64, pins: &mut u64)
    requires
        kingsq < 64,
        square < 64,
    ensures
        *final(pins) == *old(pins) | pin_val(kingsq as int, square as int, occupancy),
{
    let pinmask = ray_between_exec(kingsq, square);
    if (pinmask & occupancy).count_ones() == 2 {
        *pins = *pins | pinmask;
    } else {
        proof {
            lemma_or_zero(*pins);
        }
    }
}

/// A bishop or queen on `square` pins along its ray when one other piece stands on it; a
/// diagonal ray through the pawn that just moved two squares removes the en passant target.
fn pin_diag(kingsq: usize, square: usize, occupancy: u64, pins: &mut u64, enpassant: &mut u64)
    requires
        kingsq < 64,
        square < 64,
    ensures
        *final(pins) == *old(pins) | pin_val(kingsq as int, square as int, occupancy),
        *final(enpassant) == (if ray_between(kingsq as int, square as int) & ep_neighbors(
            *old(enpassant),
        ) != 0 {
            0u64
        } else {
            *old(enpassant)
        }),
{
    let pinmask = ray_between_exec(kingsq, square);
    let e = *enpassant;
    if (pinmask & ((e >> 8) | (e << 8))) != 0 {
        *enpassant = 0;
    }
    if (pinmask & occupancy).count_ones() == 2 {
        *pins = *pins | pinmask;
    } else {
        proof {
            lemma_or_zero(*pins);
        }
    }
}

/// The en passant target after the check for a pawn pair pinned along the rank.
pub open spec fn pin_ep_spec(
    kingsq: int,
    occupancy: u64,
    pb: [u64; 12],
    side: int,
    enemy: int,
    enemy_raw: int,
    ep: u64,
) -> u64 {
    let ep_row: u64 = if side == 0 {
        4278190080u64
    } else if side == 6 {
        1095216660480u64
    } else {
        0u64
    };
    if (pb[side + 5] & ep_row) != 0 && ((pb[enemy + 3] | pb[enemy + 4]) & ep_row) != 0 && (
    pb[side] & ep_row) != 0 {
        let ep_pawns = pawn_bb(enemy_raw, lowest(ep) as int) | pb[side];
        if ep_pawns == 2 {
            ep
        } else {
            let ep_occ = occupancy & !(ep_pawns | (ep >> 8u64) | (ep << 8u64));
            if rook_bb(kingsq, ep_occ) & ep_row & pb[enemy + 3] != 0 {
                0
            } else {
                ep
            }
        }
    } else {
        ep
    }
}

/// Removes the en passant target when taking it would expose the king along the rank.
fn pin_ep(
    tables: &AttackTables,
    kingsq: usize,
    occupancy: u64,
    pieceboards: [u64; 12],
    side: usize,
    enemy: usize,
    enemy_raw: usize,
    enpassant: &mut u64,
)
    requires
        tables.wf(),
        kingsq < 64,
        side == 0 || side == 6,
        enemy == 0 || enemy == 6,
        enemy_raw <= 1,
        *old(enpassant) != 0,
    ensures
        *final(enpassant) == pin_ep_spec(
            kingsq as int,
            occupancy,
            pieceboards,
            side as int,
            enemy as int,
            enemy_raw as int,
            *old(enpassant),
        ),
{
    let ep_row: u64 = if side == 0 {
        4278190080
    } else if side == 6 {
        1095216660480
    } else {
        0
    };
    if (pieceboards[side + 5] & ep_row) != 0 && ((pieceboards[enemy + 3] | pieceboards[enemy
        + 4]) & ep_row) != 0 && (pieceboards[side] & ep_row) != 0 {
        proof {
            lemma_lowest(*enpassant);
        }
        let ep_sq = enpassant.trailing_zeros() as usize;
        let ep_pawns = tables.pawn[enemy_raw][ep_sq] | pieceboards[side];
        if ep_pawns == 2 {
            return ;
        }
        let e = *enpassant;
        let ep_occ = occupancy & !(ep_pawns | (e >> 8) | (e << 8));
        if get_rook_attacks(tables, kingsq, ep_occ) & ep_row & pieceboards[enemy + 3] != 0 {
            *enpassant = 0;
        }
    }
}


// ---------------------------------------------------------------------------
// folds over the pieces of a bitboard
pub open spec fn rays_from(k: int) -> spec_fn(int) -> u64 {
    |s: int| ray_between(k, s)
}

pub open spec fn pins_from(k: int, occ: u64) -> spec_fn(int) -> u64 {
    |s: int| pin_val(k, s, occ)
}

pub open spec fn touches_from(k: int, ep: u64) -> spec_fn(int) -> u64 {
    |s: int| ray_between(k, s) & ep_neighbors(ep)
}

/// The squares attacked from `s` by a piece of kind `kind` (0 pawn, 1 knight, 2 bishop,
/// otherwise rook) of color `color` when `occ` holds the pieces on the board.
pub open spec fn piece_attacks(kind: int, color: int, occ: u64) -> spec_fn(int) -> u64 {
    |s: int|
        if kind == 0 {
            pawn_bb(color, s)
        } else if kind == 1 {
            knight_bb(s)
        } else if kind == 2 {
            bishop_bb(s, occ)
        } else {
            rook_bb(s, occ)
        }
}

/// The check mask narrowed by every slider of `sliders`.
fn checks_along(kingsq: usize, sliders: u64, checkmask: u64) -> (r: u64)
    requires
        kingsq < 64,
    ensures
        r == checkmask & meet_over(sliders, rays_from(kingsq as int)),
{
    let ghost f = rays_from(kingsq as int);
    let mut cm = checkmask;
    let mut rest = sliders;
    proof {
        lemma_and_assoc(cm, 0, 0);
    }
    while rest != 0
        invariant
            kingsq < 64,
            f == rays_from(kingsq as int),
            cm & meet_over(rest, f) == checkmask & meet_over(sliders, f),
        decreases rest,
    {
        let square = rest.trailing_zeros() as usize;
        proof {
            lemma_pop_lowest(rest, square as u64);
            lemma_and_assoc(cm, ray_between(kingsq as int, square as int), meet_over(clear_low(rest), f));
        }
        check_by_slider(kingsq, square, &mut cm);
        rest = rest & !(1u64 << (square as u64));
    }
    proof {
        lemma_and_assoc(cm, 0, 0);
    }
    cm
}

/// The rook pins along the rays to the sliders of `sliders`.
fn hv_pins(kingsq: usize, sliders: u64, occupancy: u64) -> (r: u64)
    requires
        kingsq < 64,
    ensures
        r == union_over(sliders, pins_from(kingsq as int, occupancy)),
{
    let ghost f = pins_from(kingsq as int, occupancy);
    let mut pins: u64 = 0;
    let mut rest = sliders;
    proof {
        lemma_or_zero(union_over(sliders, f));
    }
    while rest != 0
        invariant
            kingsq < 64,
            f == pins_from(kingsq as int, occupancy),
            pins | union_over(rest, f) == union_over(sliders, f),
        decreases rest,
    {
        let square = rest.trailing_zeros() as usize;
        proof {
            lemma_pop_lowest(rest, square as u64);
            lemma_or_assoc(pins, pin_val(kingsq as int, square as int, occupancy), union_over(clear_low(rest), f));
        }
        pin_hv(kingsq, square, occupancy, &mut pins);
        rest = rest & !(1u64 << (square as u64));
    }
    proof {
        lemma_or_zero(pins);
    }
    pins
}

proof fn lemma_or_nonzero(a: u64, b: u64)
    ensures
        (a | b != 0) == (a != 0 || b != 0),
        ep_neighbors(0) == 0,
        a & 0 == 0,
{
    crate::bits::lemma_u64_laws(a, b, 0);
    crate::bits::lemma_u64_laws(0, 0, 0);
}

/// The bishop pins along the rays to the sliders of `sliders`, and the en passant target
/// that remains: none when one of these rays passes beside it.
fn diag_pins(kingsq: usize, sliders: u64, occupancy: u64, enpassant: u64) -> (r: (u64, u64))
    requires
        kingsq < 64,
    ensures
        r.0 == union_over(sliders, pins_from(kingsq as int, occupancy)),
        r.1 == (if union_over(sliders, touches_from(kingsq as int, enpassant)) != 0 {
            0u64
        } else {
            enpassant
        }),
{
    let ghost f = pins_from(kingsq as int, occupancy);
    let ghost g = touches_from(kingsq as int, enpassant);
    let mut pins: u64 = 0;
    let mut ep = enpassant;
    let ghost mut touched: u64 = 0;
    let mut rest = sliders;
    proof {
        lemma_or_zero(union_over(sliders, f));
        lemma_or_zero(union_over(sliders, g));
    }
    while rest != 0
        invariant
            kingsq < 64,
            f == pins_from(kingsq as int, occupancy),
            g == touches_from(kingsq as int, enpassant),
            pins | union_over(rest, f) == union_over(sliders, f),
            touched | union_over(rest, g) == union_over(sliders, g),
            ep == (if touched != 0 { 0u64 } else { enpassant }),
        decreases rest,
    {
        let square = rest.trailing_zeros() as usize;
        let ghost t = ray_between(kingsq as int, square as int) & ep_neighbors(enpassant);
        proof {
            lemma_pop_lowest(rest, square as u64);
            lemma_or_assoc(pins, pin_val(kingsq as int, square as int, occupancy), union_over(clear_low(rest), f));
            lemma_or_assoc(touched, t, union_over(clear_low(rest), g));
            lemma_or_nonzero(touched, t);
            lemma_or_nonzero(ray_between(kingsq as int, square as int), 0);
        }
        pin_diag(kingsq, square, occupancy, &mut pins, &mut ep);
        proof {
            touched = touched | t;
        }
        rest = rest & !(1u64 << (square as u64));
    }
    proof {
        lemma_or_zero(pins);
        lemma_or_zero(touched);
    }
    (pins, ep)
}

/// The union of the attacks of the pieces of `pieces`, of kind `kind` (0 pawn, 1 knight,
/// 2 bishop, 3 rook) and color `color`.
fn attacks_union(tables: &AttackTables, kind: usize, color: usize, pieces: u64, occupancy: u64) -> (r: u64)
    requires
        tables.wf(),
        kind <= 3,
        color <= 1,
    ensures
        r == union_over(pieces, piece_attacks(kind as int, color as int, occupancy)),
{
    let ghost f = piece_attacks(kind as int, color as int, occupancy);
    let mut acc: u64 = 0;
    let mut rest = pieces;
    proof {
        lemma_or_zero(union_over(pieces, f));
    }
    while rest != 0
        invariant
            tables.wf(),
            kind <= 3,
            color <= 1,
            f == piece_attacks(kind as int, color as int, occupancy),
            acc | union_over(rest, f) == union_over(pieces, f),
        decreases rest,
    {
        let square = rest.trailing_zeros() as usize;
        proof {
            lemma_pop_lowest(rest, square as u64);
        }
        let a = if kind == 0 {
            tables.pawn[color][square]
        } else if kind == 1 {
            tables.knight[square]
        } else if kind == 2 {
            get_bishop_attacks(tables, square, occupancy)
        } else {
            get_rook_attacks(tables, square, occupancy)
        };
        proof {
            assert(a == f(square as int));
            lemma_or_assoc(acc, a, union_over(clear_low(rest), f));
        }
        acc = acc | a;
        rest = rest & !(1u64 << (square as u64));
    }
    proof {
        lemma_or_zero(acc);
    }
    acc
}

// ---------------------------------------------------------------------------
// the masks of the side to move
/// First piece board of the side to move: 0 for white, 6 for black.
pub open spec fn own_base(b: Board) -> int {
    6 * side_index(b)
}

/// First piece board of the other side.
pub open spec fn foe_base(b: Board) -> int {
    6 - 6 * side_index(b)
}

/// The square of the king of the side to move.
pub open spec fn king_square(b: Board) -> int {
    lowest(b.pieceboards[own_base(b) + 5]) as int
}

/// The squares the enemy king attacks.
pub open spec fn enemy_king_ban(b: Board) -> u64 {
    king_bb(lowest(b.pieceboards[foe_base(b) + 5]) as int)
}

/// Enemy rooks and queens.
pub open spec fn hv_sliders(b: Board) -> u64 {
    b.pieceboards[foe_base(b) + 4] | b.pieceboards[foe_base(b) + 3]
}

/// Enemy bishops and queens.
pub open spec fn diag_sliders(b: Board) -> u64 {
    b.pieceboards[foe_base(b) + 4] | b.pieceboards[foe_base(b) + 2]
}

/// The squares a piece may move to when the king is in check: a checking pawn or knight,
/// the rays to checking sliders, every square when there is no check.
pub open spec fn refresh_checkmask(b: Board) -> u64 {
    let k = king_square(b);
    let f = foe_base(b);
    let occ = b.occupancies[2];
    let pawns = pawn_bb(side_index(b), k) & b.pieceboards[f];
    let cm1 = if pawns != 0 {
        pawns
    } else {
        u64::MAX
    };
    let knights = knight_bb(k) & b.pieceboards[f + 1];
    let cm2 = if knights != 0 {
        knights
    } else {
        cm1
    };
    let hv = hv_sliders(b);
    let cm3 = if rook_bb(k, 0) & hv != 0 {
        cm2 & meet_over(rook_bb(k, occ) & hv, rays_from(k))
    } else {
        cm2
    };
    let di = diag_sliders(b);
    if bishop_bb(k, 0) & di != 0 {
        cm3 & meet_over(bishop_bb(k, occ) & di, rays_from(k))
    } else {
        cm3
    }
}

/// The rays along ranks and files that pin a piece to the king.
pub open spec fn refresh_rook_pins(b: Board) -> u64 {
    let k = king_square(b);
    let xray = rook_bb(k, 0) & hv_sliders(b);
    if xray != 0 {
        union_over(xray, pins_from(k, b.occupancies[2]))
    } else {
        0
    }
}

/// The diagonal rays that pin a piece to the king.
pub open spec fn refresh_bishop_pins(b: Board) -> u64 {
    let k = king_square(b);
    let xray = bishop_bb(k, 0) & diag_sliders(b);
    if xray != 0 {
        union_over(xray, pins_from(k, b.occupancies[2]))
    } else {
        0
    }
}

/// The en passant target that may still be taken.
pub open spec fn refresh_ep(b: Board) -> u64 {
    let k = king_square(b);
    let xray = bishop_bb(k, 0) & diag_sliders(b);
    let ep1 = if xray != 0 && union_over(xray, touches_from(k, b.enpassant)) != 0 {
        0u64
    } else {
        b.enpassant
    };
    if ep1 != 0 {
        pin_ep_spec(
            k,
            b.occupancies[2],
            b.pieceboards,
            own_base(b),
            foe_base(b),
            1 - side_index(b),
            ep1,
        )
    } else {
        ep1
    }
}

/// `refresh` keeps the en passant target or drops it; it never makes a new one.
pub proof fn lemma_refresh_ep_kept_or_dropped(b: Board)
    ensures
        refresh_ep(b) == b.enpassant || refresh_ep(b) == 0,
{
}

/// Squares next to the king that are neither own pieces nor next to the enemy king.
pub open spec fn king_room(b: Board) -> u64 {
    king_bb(king_square(b)) & !b.occupancies[side_index(b)] & !enemy_king_ban(b)
}

/// The squares the king may not step on: all enemy attacks, with the king taken off the
/// board so that sliders see through it. When the king has no room only the enemy king's
/// squares are gathered.
pub open spec fn refresh_ban(b: Board) -> u64 {
    if king_room(b) == 0 {
        enemy_king_ban(b)
    } else {
        let f = foe_base(b);
        let kocc = b.occupancies[2] & !b.pieceboards[own_base(b) + 5];
        let pb = b.pieceboards;
        enemy_king_ban(b) | union_over(pb[f + 1], piece_attacks(1, 0, kocc)) | union_over(
            pb[f],
            piece_attacks(0, 1 - side_index(b), kocc),
        ) | union_over(pb[f + 2] | pb[f + 4], piece_attacks(2, 0, kocc)) | union_over(
            pb[f + 3] | pb[f + 4],
            piece_attacks(3, 0, kocc),
        )
    }
}

/// The squares the king may move to.
pub open spec fn refresh_king_moves(b: Board) -> u64 {
    if king_room(b) == 0 {
        0
    } else {
        king_room(b) & !refresh_ban(b)
    }
}

/// Both kings stand on the board and a side is to move: what `refresh` needs.
pub open spec fn kings_present(b: Board) -> bool {
    &&& (b.side == Some(0u8) || b.side == Some(1u8))
    &&& b.pieceboards[own_base(b) + 5] != 0
    &&& b.pieceboards[foe_base(b) + 5] != 0
}

/// Sets the move masks of the side to move: [squares the king may not enter, check mask,
/// rook pins, bishop pins, king moves]; drops an en passant target that may not be taken.
pub fn refresh(tables: &AttackTables, board: &mut Board)
    requires
        tables.wf(),
        kings_present(*old(board)),
    ensures
        final(board).pieceboards == old(board).pieceboards,
        final(board).occupancies == old(board).occupancies,
        final(board).side == old(board).side,
        final(board).castle == old(board).castle,
        final(board).key == old(board).key,
        final(board).enpassant == refresh_ep(*old(board)),
        final(board).movemasks[0] == refresh_ban(*old(board)),
        final(board).movemasks[1] == refresh_checkmask(*old(board)),
        final(board).movemasks[2] == refresh_rook_pins(*old(board)),
        final(board).movemasks[3] == refresh_bishop_pins(*old(board)),
        final(board).movemasks[4] == refresh_king_moves(*old(board)),
{
    let ghost b = *board;
    let mut checkmask = u64::MAX;
    let raw_side: usize = if board.side == Some(1) { 1 } else { 0 };
    let enemy_raw: usize = 1 - raw_side;
    let side = 6 * raw_side;
    let enemy = 6 * enemy_raw;
    let kingboard = board.pieceboards[5 + side];
    proof {
        lemma_lowest(kingboard);
        lemma_lowest(board.pieceboards[5 + enemy]);
    }
    let enemy_king = board.pieceboards[5 + enemy].trailing_zeros() as usize;
    let kingban = tables.king[enemy_king];
    let kingsq = kingboard.trailing_zeros() as usize;
    let occ = board.occupancies[2];
    let pawn_attacks = tables.pawn[raw_side][kingsq] & board.pieceboards[enemy];
    if pawn_attacks != 0 {
        checkmask = pawn_attacks;
    }
    let knight_attacks = tables.knight[kingsq] & board.pieceboards[enemy + 1];
    if knight_attacks != 0 {
        checkmask = knight_attacks;
    }
    let mut rook_pin: u64 = 0;
    let mut bishop_pin: u64 = 0;
    let hv = board.pieceboards[4 + enemy] | board.pieceboards[3 + enemy];
    let hv_xray = get_rook_attacks(tables, kingsq, 0) & hv;
    if hv_xray != 0 {
        let atk = get_rook_attacks(tables, kingsq, occ) & hv;
        checkmask = checks_along(kingsq, atk, checkmask);
        rook_pin = hv_pins(kingsq, hv_xray, occ);
    }
    let di = board.pieceboards[4 + enemy] | board.pieceboards[2 + enemy];
    let di_xray = get_bishop_attacks(tables, kingsq, 0) & di;
    let mut ep = board.enpassant;
    if di_xray != 0 {
        let atk = get_bishop_attacks(tables, kingsq, occ) & di;
        checkmask = checks_along(kingsq, atk, checkmask);
        let (pins, e) = diag_pins(kingsq, di_xray, occ, ep);
        bishop_pin = pins;
        ep = e;
    }
    if ep != 0 {
        pin_ep(tables, kingsq, occ, board.pieceboards, side, enemy, enemy_raw, &mut ep);
    }
    board.enpassant = ep;
    let king_atk = tables.king[kingsq] & !board.occupancies[raw_side] & !kingban;
    if king_atk == 0 {
        board.movemasks = [kingban, checkmask, rook_pin, bishop_pin, 0];
    } else {
        let kingless_occupancy = occ & !kingboard;
        let ban = kingban | attacks_union(tables, 1, 0, board.pieceboards[enemy + 1], kingless_occupancy)
            | attacks_union(tables, 0, enemy_raw, board.pieceboards[enemy], kingless_occupancy)
            | attacks_union(
            tables,
            2,
            0,
            board.pieceboards[enemy + 2] | board.pieceboards[enemy + 4],
            kingless_occupancy,
        ) | attacks_union(
            tables,
            3,
            0,
            board.pieceboards[enemy + 3] | board.pieceboards[enemy + 4],
            kingless_occupancy,
        );
        board.movemasks = [ban, checkmask, rook_pin, bishop_pin, king_atk & !ban];
    }
}

// ---------------------------------------------------------------------------
// writing moves into a move list
/// `m` goes from `from` to a square of `targets` with flag bits `flag`.
pub open spec fn shaped(m: u16, from: int, targets: u64, flag: int) -> bool {
    &&& spec_initial(m) == from
    &&& has_bit(targets, spec_final(m) as u64)
    &&& spec_extra(m) == flag
}

/// `m` moves a piece of `pieces`, of kind `kind`, to a square it attacks within `filter`.
pub open spec fn listed(m: u16, pieces: u64, kind: int, occ: u64, filter: u64, flag: int) -> bool {
    &&& has_bit(pieces, spec_initial(m) as u64)
    &&& shaped(m, spec_initial(m), (piece_attacks(kind, 0, occ))(spec_initial(m)) & filter, flag)
}

proof fn lemma_subset_step(r: u64, set: u64, x: u64)
    requires
        r & !set == 0,
    ensures
        (r & !x) & !set == 0,
{
    crate::bits::lemma_u64_laws(r, x, set);
}

proof fn lemma_subset_has(r: u64, set: u64, sq: u64)
    requires
        r & !set == 0,
        sq < 64,
        has_bit(r, sq),
    ensures
        has_bit(set, sq),
{
    crate::bits::lemma_u64_squares(r, set, sq, 0);
}

proof fn lemma_subset_self(set: u64)
    ensures
        set & !set == 0,
{
    crate::bits::lemma_u64_laws(set, 0, 0);
}

/// Packs a move from its squares and its four flag bits.
fn pack(from: u16, to: u16, flag: u16) -> (m: u16)
    requires
        from < 64,
        to < 64,
        flag < 16,
    ensures
        spec_initial(m) == from,
        spec_final(m) == to,
        spec_extra(m) == flag,
{
    let capture = (flag >> 2) & 1;
    let promotion = (flag >> 3) & 1;
    let special1 = (flag >> 1) & 1;
    let special2 = flag & 1;
    proof {
        crate::moves::lemma_u16_fields(0, flag);
        lemma_move_roundtrip(from, to, capture, promotion, special1, special2);
    }
    <u16 as MoveStuff>::new(from, to, capture, promotion, special1, special2)
}

/// `m` stands in `s` at some index in `lo..hi`.
pub open spec fn in_list(s: Seq<u16>, lo: int, hi: int, m: u16) -> bool {
    exists|j: int| lo <= j < hi && #[trigger] s[j] == m
}

/// Moves found in a list stay found when the list only grows past its end.
proof fn lemma_in_list_keep(before: Seq<u16>, after: Seq<u16>, lo: int, hi: int, hi2: int, m: u16)
    requires
        in_list(before, lo, hi, m),
        hi <= hi2,
        forall|j: int| lo <= j < hi ==> after[j] == before[j],
    ensures
        in_list(after, lo, hi2, m),
{
    let j = choose|j: int| lo <= j < hi && #[trigger] before[j] == m;
    assert(after[j] == m);
}

/// No move stands twice in `s` between `lo` and `hi`.
pub open spec fn distinct_in(s: Seq<u16>, lo: int, hi: int) -> bool {
    forall|a: int, c: int| lo <= a < c < hi ==> #[trigger] s[a] != #[trigger] s[c]
}

/// Writes `m` at `idx` when the list has room there; returns the next free index.
fn emit(movelist: &mut [u16], idx: usize, m: u16) -> (n: usize)
    requires
        idx <= old(movelist)@.len(),
    ensures
        final(movelist)@.len() == old(movelist)@.len(),
        n == (if idx < old(movelist)@.len() {
            idx + 1
        } else {
            idx as int
        }),
        forall|j: int|
            0 <= j < old(movelist)@.len() && j != idx ==> final(movelist)@[j] == old(movelist)@[j],
        idx < old(movelist)@.len() ==> final(movelist)@[idx as int] == m,
{
    if idx < movelist.len() {
        movelist[idx] = m;
        idx + 1
    } else {
        idx
    }
}

/// Lists a move from `from` to every square of `targets`; all of them when the list does not
/// fill up.
fn emit_all(movelist: &mut [u16], idx: usize, from: u16, targets: u64, flag: u16) -> (n: usize)
    requires
        from < 64,
        flag < 16,
        idx <= old(movelist)@.len(),
    ensures
        final(movelist)@.len() == old(movelist)@.len(),
        idx <= n <= final(movelist)@.len(),
        forall|j: int| 0 <= j < idx ==> final(movelist)@[j] == old(movelist)@[j],
        forall|j: int| n <= j < final(movelist)@.len() ==> final(movelist)@[j] == old(movelist)@[j],
        forall|j: int| idx <= j < n ==> shaped(#[trigger] final(movelist)@[j], from as int, targets, flag as int),
        n < final(movelist)@.len() ==> forall|m: u16|
            #[trigger] shaped(m, from as int, targets, flag as int) ==> in_list(final(movelist)@, idx as int, n as int, m),
        distinct_in(final(movelist)@, idx as int, n as int),
{
    let ghost orig = movelist@;
    let mut n = idx;
    let mut rest = targets;
    proof {
        lemma_subset_self(targets);
    }
    while rest != 0
        invariant
            from < 64,
            flag < 16,
            movelist@.len() == orig.len(),
            idx <= n <= movelist@.len(),
            rest & !targets == 0,
            forall|j: int| 0 <= j < idx ==> movelist@[j] == orig[j],
            forall|j: int| n <= j < movelist@.len() ==> movelist@[j] == orig[j],
            forall|j: int| idx <= j < n ==> shaped(#[trigger] movelist@[j], from as int, targets, flag as int),
            n < movelist@.len() ==> forall|m: u16|
                #[trigger] shaped(m, from as int, targets, flag as int) && !has_bit(rest, spec_final(m) as u64)
                    ==> in_list(movelist@, idx as int, n as int, m),
            distinct_in(movelist@, idx as int, n as int),
            forall|j: int| idx <= j < n ==> !has_bit(rest, spec_final(#[trigger] movelist@[j]) as u64),
        decreases rest,
    {
        let to = rest.trailing_zeros() as u16;
        proof {
            lemma_pop_lowest(rest, to as u64);
            lemma_lowest(rest);
            lemma_subset_has(rest, targets, to as u64);
            lemma_subset_step(rest, targets, 1u64 << (to as u64));
        }
        let m = pack(from, to, flag);
        let ghost before = movelist@;
        let ghost rest0 = rest;
        let n0 = n;
        n = emit(movelist, n, m);
        rest = rest & !(1u64 << (to as u64));
        proof {
            assert forall|j: int| idx <= j < n implies !has_bit(rest, spec_final(#[trigger] movelist@[j]) as u64) by {
                crate::moves::lemma_u16_fields(movelist@[j], 0);
                crate::bits::lemma_bit_pop(rest0, to as u64, spec_final(movelist@[j]) as u64);
                if j < n0 {
                    assert(movelist@[j] == before[j]);
                }
            }
            assert forall|a: int, c: int| idx <= a < c < n implies #[trigger] movelist@[a] != #[trigger] movelist@[c] by {
                if c == n0 {
                    assert(movelist@[a] == before[a]);
                    assert(!has_bit(rest0, spec_final(before[a]) as u64));
                } else {
                    assert(movelist@[a] == before[a] && movelist@[c] == before[c]);
                }
            }
            if n < movelist@.len() {
                assert forall|x: u16|
                    #[trigger] shaped(x, from as int, targets, flag as int) && !has_bit(rest, spec_final(x) as u64)
                        implies in_list(movelist@, idx as int, n as int, x) by {
                    let t = spec_final(x) as u64;
                    crate::moves::lemma_u16_fields(x, 0);
                    crate::bits::lemma_bit_pop(rest0, to as u64, t);
                    if t == to as u64 {
                        crate::moves::lemma_move_fields_eq(x, m);
                        assert(movelist@[n0 as int] == m);
                    } else {
                        lemma_in_list_keep(before, movelist@, idx as int, n0 as int, n as int, x);
                    }
                }
            }
        }
    }
    proof {
        assert forall|x: u16| #[trigger] shaped(x, from as int, targets, flag as int) implies !has_bit(
            rest,
            spec_final(x) as u64,
        ) by {
            crate::bits::lemma_bit_zero(spec_final(x) as u64);
        }
    }
    n
}

/// Lists, for every piece of `pieces` of kind `kind` (1 knight, 2 bishop, 3 rook), a move
/// to every square it attacks within `filter`.
fn emit_piece_moves(
    tables: &AttackTables,
    movelist: &mut [u16],
    idx: usize,
    pieces: u64,
    kind: usize,
    occupancy: u64,
    filter: u64,
    flag: u16,
) -> (n: usize)
    requires
        tables.wf(),
        1 <= kind <= 3,
        flag < 16,
        idx <= old(movelist)@.len(),
    ensures
        final(movelist)@.len() == old(movelist)@.len(),
        idx <= n <= final(movelist)@.len(),
        forall|j: int| 0 <= j < idx ==> final(movelist)@[j] == old(movelist)@[j],
        forall|j: int| n <= j < final(movelist)@.len() ==> final(movelist)@[j] == old(movelist)@[j],
        forall|j: int|
            idx <= j < n ==> listed(
                #[trigger] final(movelist)@[j],
                pieces,
                kind as int,
                occupancy,
                filter,
                flag as int,
            ),
        n < final(movelist)@.len() ==> forall|m: u16|
            #[trigger] listed(m, pieces, kind as int, occupancy, filter, flag as int) ==> in_list(
                final(movelist)@,
                idx as int,
                n as int,
                m,
            ),
        distinct_in(final(movelist)@, idx as int, n as int),
{
    let ghost orig = movelist@;
    let ghost f = piece_attacks(kind as int, 0, occupancy);
    let mut n = idx;
    let mut rest = pieces;
    proof {
        lemma_subset_self(pieces);
    }
    while rest != 0
        invariant
            tables.wf(),
            1 <= kind <= 3,
            flag < 16,
            f == piece_attacks(kind as int, 0, occupancy),
            movelist@.len() == orig.len(),
            idx <= n <= movelist@.len(),
            rest & !pieces == 0,
            forall|j: int| 0 <= j < idx ==> movelist@[j] == orig[j],
            forall|j: int| n <= j < movelist@.len() ==> movelist@[j] == orig[j],
            forall|j: int|
                idx <= j < n ==> listed(
                    #[trigger] movelist@[j],
                    pieces,
                    kind as int,
                    occupancy,
                    filter,
                    flag as int,
                ),
            n < movelist@.len() ==> forall|m: u16|
                #[trigger] listed(m, pieces, kind as int, occupancy, filter, flag as int) && !has_bit(
                    rest,
                    spec_initial(m) as u64,
                ) ==> in_list(movelist@, idx as int, n as int, m),
            distinct_in(movelist@, idx as int, n as int),
            forall|j: int| idx <= j < n ==> !has_bit(rest, spec_initial(#[trigger] movelist@[j]) as u64),
        decreases rest,
    {
        let sq = rest.trailing_zeros() as usize;
        proof {
            lemma_pop_lowest(rest, sq as u64);
            lemma_lowest(rest);
            lemma_subset_has(rest, pieces, sq as u64);
            lemma_subset_step(rest, pieces, 1u64 << (sq as u64));
        }
        let attacks = if kind == 1 {
            tables.knight[sq]
        } else if kind == 2 {
            get_bishop_attacks(tables, sq, occupancy)
        } else {
            get_rook_attacks(tables, sq, occupancy)
        };
        assert(attacks == f(sq as int));
        let ghost before = movelist@;
        let n0 = n;
        n = emit_all(movelist, n, sq as u16, attacks & filter, flag);
        assert forall|j: int| idx <= j < n implies listed(
            #[trigger] movelist@[j],
            pieces,
            kind as int,
            occupancy,
            filter,
            flag as int,
        ) by {
            if j < n0 {
                assert(movelist@[j] == before[j]);
            } else {
                assert(shaped(movelist@[j], sq as int, attacks & filter, flag as int));
            }
        }
        let ghost rest0 = rest;
        rest = rest & !(1u64 << (sq as u64));
        proof {
            assert forall|j: int| idx <= j < n implies !has_bit(rest, spec_initial(#[trigger] movelist@[j]) as u64) by {
                crate::moves::lemma_u16_fields(movelist@[j], 0);
                crate::bits::lemma_bit_pop(rest0, sq as u64, spec_initial(movelist@[j]) as u64);
                if j < n0 {
                    assert(movelist@[j] == before[j]);
                } else {
                    assert(shaped(movelist@[j], sq as int, attacks & filter, flag as int));
                }
            }
            assert forall|a: int, c: int| idx <= a < c < n implies #[trigger] movelist@[a] != #[trigger] movelist@[c] by {
                if c >= n0 {
                    if a < n0 {
                        assert(movelist@[a] == before[a]);
                        assert(!has_bit(rest0, spec_initial(before[a]) as u64));
                        assert(shaped(movelist@[c], sq as int, attacks & filter, flag as int));
                    }
                } else {
                    assert(movelist@[a] == before[a] && movelist@[c] == before[c]);
                }
            }
            if n < movelist@.len() {
                assert forall|x: u16|
                    #[trigger] listed(x, pieces, kind as int, occupancy, filter, flag as int) && !has_bit(
                        rest,
                        spec_initial(x) as u64,
                    ) implies in_list(movelist@, idx as int, n as int, x) by {
                    let s0 = spec_initial(x) as u64;
                    crate::moves::lemma_u16_fields(x, 0);
                    crate::bits::lemma_bit_pop(rest0, sq as u64, s0);
                    if s0 == sq as u64 {
                        assert(shaped(x, sq as int, attacks & filter, flag as int));
                        let k = choose|k: int| n0 <= k < n && #[trigger] movelist@[k] == x;
                        assert(idx <= k < n);
                    } else {
                        lemma_in_list_keep(before, movelist@, idx as int, n0 as int, n as int, x);
                    }
                }
            }
        }
    }
    proof {
        assert forall|x: u16|
            #[trigger] listed(x, pieces, kind as int, occupancy, filter, flag as int) implies !has_bit(
                rest,
                spec_initial(x) as u64,
            ) by {
            crate::bits::lemma_bit_zero(spec_initial(x) as u64);
        }
    }
    n
}

/// Lists a pawn move from `from` to `to`: the four promotions when `promote`, else one
/// move; `capture` adds the capture flag.
fn emit_pawn_move(movelist: &mut [u16], idx: usize, from: u16, to: u16, promote: bool, capture: bool) -> (n: usize)
    requires
        from < 64,
        to < 64,
        idx <= old(movelist)@.len(),
    ensures
        final(movelist)@.len() == old(movelist)@.len(),
        idx <= n <= final(movelist)@.len(),
        forall|j: int| 0 <= j < idx ==> final(movelist)@[j] == old(movelist)@[j],
        forall|j: int| n <= j < final(movelist)@.len() ==> final(movelist)@[j] == old(movelist)@[j],
        forall|j: int|
            idx <= j < n ==> pawn_flagged(#[trigger] final(movelist)@[j], from as int, to as int, promote, capture),
        n < final(movelist)@.len() ==> forall|m: u16|
            #[trigger] pawn_flagged(m, from as int, to as int, promote, capture) ==> in_list(
                final(movelist)@,
                idx as int,
                n as int,
                m,
            ),
        distinct_in(final(movelist)@, idx as int, n as int),
{
    let base: u16 = if capture { 4 } else { 0 };
    if promote {
        let m0 = pack(from, to, base + 8);
        let m1 = pack(from, to, base + 9);
        let m2 = pack(from, to, base + 10);
        let m3 = pack(from, to, base + 11);
        let n1 = emit(movelist, idx, m0);
        let n2 = emit(movelist, n1, m1);
        let n3 = emit(movelist, n2, m2);
        let n = emit(movelist, n3, m3);
        proof {
            assert forall|a: int, c: int| idx <= a < c < n implies #[trigger] movelist@[a] != #[trigger] movelist@[c] by {
                assert(pawn_flagged(movelist@[a], from as int, to as int, promote, capture));
                assert(spec_extra(movelist@[a]) == base + 8 + (a - idx));
                assert(spec_extra(movelist@[c]) == base + 8 + (c - idx));
            }
            if n < movelist@.len() {
                assert(movelist@[idx as int] == m0);
                assert(movelist@[n1 as int] == m1);
                assert(movelist@[n2 as int] == m2);
                assert(movelist@[n3 as int] == m3);
                assert forall|x: u16| #[trigger] pawn_flagged(x, from as int, to as int, promote, capture)
                    implies in_list(movelist@, idx as int, n as int, x) by {
                    let e = spec_extra(x);
                    if e == base + 8 {
                        crate::moves::lemma_move_fields_eq(x, m0);
                    } else if e == base + 9 {
                        crate::moves::lemma_move_fields_eq(x, m1);
                    } else if e == base + 10 {
                        crate::moves::lemma_move_fields_eq(x, m2);
                    } else {
                        crate::moves::lemma_move_fields_eq(x, m3);
                    }
                }
            }
        }
        n
    } else {
        let m0 = pack(from, to, base);
        let n = emit(movelist, idx, m0);
        proof {
            if n < movelist@.len() {
                assert(movelist@[idx as int] == m0);
                assert forall|x: u16| #[trigger] pawn_flagged(x, from as int, to as int, promote, capture)
                    implies in_list(movelist@, idx as int, n as int, x) by {
                    crate::moves::lemma_move_fields_eq(x, m0);
                }
            }
        }
        n
    }
}

/// A pawn move from `from` to `to` with the promotion flags when `promote`, with the capture
/// flag when `capture`.
pub open spec fn pawn_flagged(m: u16, from: int, to: int, promote: bool, capture: bool) -> bool {
    let base: int = if capture {
        4
    } else {
        0
    };
    &&& spec_initial(m) == from
    &&& spec_final(m) == to
    &&& if promote {
        base + 8 <= spec_extra(m) <= base + 11
    } else {
        spec_extra(m) == base
    }
}

/// The capture targets of a pawn of colour `color` on `from` within `filter`: all of them, or
/// the lowest one alone when `first_only`.
pub open spec fn pawn_targets(color: int, from: int, filter: u64, first_only: bool) -> u64 {
    let a = pawn_bb(color, from) & filter;
    if first_only {
        if a != 0 {
            single(lowest(a))
        } else {
            0u64
        }
    } else {
        a
    }
}

/// A pawn of `pawns` captures onto one of its targets within `filter` (the lowest one alone
/// when `first_only`), promoting from `promoterow`.
pub open spec fn pawn_capture_listed(
    m: u16,
    pawns: u64,
    color: int,
    filter: u64,
    promoterow: u64,
    first_only: bool,
) -> bool {
    let from = spec_initial(m);
    &&& has_bit(pawns, from as u64)
    &&& has_bit(pawn_targets(color, from, filter, first_only), spec_final(m) as u64)
    &&& pawn_flagged(m, from, spec_final(m), has_bit(promoterow, from as u64), true)
}

/// Lists the captures of the pawns of `pawns`: every target within `filter`, or only the
/// lowest one when `first_only`; all of them when the list does not fill up.
fn emit_pawn_captures(
    tables: &AttackTables,
    movelist: &mut [u16],
    idx: usize,
    pawns: u64,
    color: usize,
    filter: u64,
    promoterow: u64,
    first_only: bool,
) -> (n: usize)
    requires
        tables.wf(),
        color <= 1,
        idx <= old(movelist)@.len(),
    ensures
        final(movelist)@.len() == old(movelist)@.len(),
        idx <= n <= final(movelist)@.len(),
        forall|j: int| 0 <= j < idx ==> final(movelist)@[j] == old(movelist)@[j],
        forall|j: int| n <= j < final(movelist)@.len() ==> final(movelist)@[j] == old(movelist)@[j],
        forall|j: int|
            idx <= j < n ==> pawn_capture_listed(
                #[trigger] final(movelist)@[j],
                pawns,
                color as int,
                filter,
                promoterow,
                first_only,
            ),
        n < final(movelist)@.len() ==> forall|m: u16|
            #[trigger] pawn_capture_listed(m, pawns, color as int, filter, promoterow, first_only)
                ==> in_list(final(movelist)@, idx as int, n as int, m),
        distinct_in(final(movelist)@, idx as int, n as int),
{
    let ghost orig = movelist@;
    let mut n = idx;
    let mut rest = pawns;
    proof {
        lemma_subset_self(pawns);
    }
    while rest != 0
        invariant
            tables.wf(),
            color <= 1,
            movelist@.len() == orig.len(),
            idx <= n <= movelist@.len(),
            rest & !pawns == 0,
            forall|j: int| 0 <= j < idx ==> movelist@[j] == orig[j],
            forall|j: int| n <= j < movelist@.len() ==> movelist@[j] == orig[j],
            forall|j: int|
                idx <= j < n ==> pawn_capture_listed(
                    #[trigger] movelist@[j],
                    pawns,
                    color as int,
                    filter,
                    promoterow,
                    first_only,
                ),
            n < movelist@.len() ==> forall|m: u16|
                #[trigger] pawn_capture_listed(m, pawns, color as int, filter, promoterow, first_only)
                    && !has_bit(rest, spec_initial(m) as u64) ==> in_list(movelist@, idx as int, n as int, m),
            distinct_in(movelist@, idx as int, n as int),
            forall|j: int| idx <= j < n ==> !has_bit(rest, spec_initial(#[trigger] movelist@[j]) as u64),
        decreases rest,
    {
        let pawn = rest.trailing_zeros() as usize;
        proof {
            lemma_pop_lowest(rest, pawn as u64);
            lemma_lowest(rest);
            lemma_subset_has(rest, pawns, pawn as u64);
            lemma_subset_step(rest, pawns, 1u64 << (pawn as u64));
            crate::bits::lemma_and_single(promoterow, pawn as u64);
        }
        let promote = promoterow & (1u64 << (pawn as u64)) != 0;
        let attacks = tables.pawn[color][pawn] & filter;
        let mut targets = if first_only && attacks != 0 {
            proof {
                lemma_lowest(attacks);
            }
            let t = attacks.trailing_zeros() as u64;
            1u64 << t
        } else if first_only {
            0
        } else {
            attacks
        };
        let ghost tset = targets;
        proof {
            assert(tset == pawn_targets(color as int, pawn as int, filter, first_only));
            lemma_subset_self(tset);
        }
        let ghost n_start = n;
        while targets != 0
            invariant
                tables.wf(),
                color <= 1,
                pawn < 64,
                has_bit(pawns, pawn as u64),
                has_bit(rest, pawn as u64),
                rest & !pawns == 0,
                promote == has_bit(promoterow, pawn as u64),
                tset == pawn_targets(color as int, pawn as int, filter, first_only),
                targets & !tset == 0,
                movelist@.len() == orig.len(),
                idx <= n_start <= n <= movelist@.len(),
                forall|j: int| 0 <= j < idx ==> movelist@[j] == orig[j],
                forall|j: int| n <= j < movelist@.len() ==> movelist@[j] == orig[j],
            forall|j: int| n <= j < movelist@.len() ==> movelist@[j] == orig[j],
                forall|j: int|
                    idx <= j < n ==> pawn_capture_listed(
                        #[trigger] movelist@[j],
                        pawns,
                        color as int,
                        filter,
                        promoterow,
                        first_only,
                    ),
                n < movelist@.len() ==> forall|m: u16|
                    #[trigger] pawn_capture_listed(m, pawns, color as int, filter, promoterow, first_only)
                        && !has_bit(rest, spec_initial(m) as u64) ==> in_list(movelist@, idx as int, n as int, m),
                n < movelist@.len() ==> forall|m: u16|
                    #[trigger] pawn_capture_listed(m, pawns, color as int, filter, promoterow, first_only)
                        && spec_initial(m) == pawn && !has_bit(targets, spec_final(m) as u64) ==> in_list(
                        movelist@,
                        idx as int,
                        n as int,
                        m,
                    ),
                distinct_in(movelist@, idx as int, n as int),
                forall|j: int| idx <= j < n_start ==> !has_bit(rest, spec_initial(#[trigger] movelist@[j]) as u64),
                forall|j: int| n_start <= j < n ==> spec_initial(#[trigger] movelist@[j]) == pawn && !has_bit(
                    targets,
                    spec_final(movelist@[j]) as u64,
                ),
            decreases targets,
        {
            let to = targets.trailing_zeros() as u16;
            proof {
                lemma_pop_lowest(targets, to as u64);
                lemma_lowest(targets);
                lemma_subset_has(targets, tset, to as u64);
                lemma_subset_step(targets, tset, 1u64 << (to as u64));
            }
            let ghost before = movelist@;
            let ghost targets0 = targets;
            let n0 = n;
            n = emit_pawn_move(movelist, n, pawn as u16, to, promote, true);
            targets = targets & !(1u64 << (to as u64));
            assert forall|j: int| idx <= j < n implies pawn_capture_listed(
                #[trigger] movelist@[j],
                pawns,
                color as int,
                filter,
                promoterow,
                first_only,
            ) by {
                if j < n0 {
                    assert(movelist@[j] == before[j]);
                } else {
                    assert(pawn_flagged(movelist@[j], pawn as int, to as int, promote, true));
                }
            }
            proof {
                assert forall|j: int| n_start <= j < n implies spec_initial(#[trigger] movelist@[j]) == pawn && !has_bit(
                    targets,
                    spec_final(movelist@[j]) as u64,
                ) by {
                    crate::moves::lemma_u16_fields(movelist@[j], 0);
                    crate::bits::lemma_bit_pop(targets0, to as u64, spec_final(movelist@[j]) as u64);
                    if j < n0 {
                        assert(movelist@[j] == before[j]);
                    } else {
                        assert(pawn_flagged(movelist@[j], pawn as int, to as int, promote, true));
                    }
                }
                assert forall|j: int| idx <= j < n_start implies !has_bit(rest, spec_initial(#[trigger] movelist@[j]) as u64) by {
                    assert(movelist@[j] == before[j]);
                }
                assert forall|a: int, c: int| idx <= a < c < n implies #[trigger] movelist@[a] != #[trigger] movelist@[c] by {
                    if c >= n0 {
                        if a < n0 {
                            assert(movelist@[a] == before[a]);
                            assert(pawn_flagged(movelist@[c], pawn as int, to as int, promote, true));
                            if a >= n_start {
                                assert(!has_bit(targets0, spec_final(before[a]) as u64));
                            } else {
                                assert(!has_bit(rest, spec_initial(before[a]) as u64));
                            }
                        }
                    } else {
                        assert(movelist@[a] == before[a] && movelist@[c] == before[c]);
                    }
                }
                if n < movelist@.len() {
                    assert forall|x: u16|
                        #[trigger] pawn_capture_listed(x, pawns, color as int, filter, promoterow, first_only)
                            && !has_bit(rest, spec_initial(x) as u64) implies in_list(
                            movelist@,
                            idx as int,
                            n as int,
                            x,
                        ) by {
                        lemma_in_list_keep(before, movelist@, idx as int, n0 as int, n as int, x);
                    }
                    assert forall|x: u16|
                        #[trigger] pawn_capture_listed(x, pawns, color as int, filter, promoterow, first_only)
                            && spec_initial(x) == pawn && !has_bit(targets, spec_final(x) as u64) implies in_list(
                            movelist@,
                            idx as int,
                            n as int,
                            x,
                        ) by {
                        let t = spec_final(x) as u64;
                        crate::moves::lemma_u16_fields(x, 0);
                        crate::bits::lemma_bit_pop(targets0, to as u64, t);
                        if t == to as u64 {
                            assert(pawn_flagged(x, pawn as int, to as int, promote, true));
                            let k = choose|k: int| n0 <= k < n && #[trigger] movelist@[k] == x;
                            assert(idx <= k < n);
                        } else {
                            lemma_in_list_keep(before, movelist@, idx as int, n0 as int, n as int, x);
                        }
                    }
                }
            }
        }
        let ghost rest0 = rest;
        rest = rest & !(1u64 << (pawn as u64));
        proof {
            assert forall|j: int| idx <= j < n implies !has_bit(rest, spec_initial(#[trigger] movelist@[j]) as u64) by {
                crate::moves::lemma_u16_fields(movelist@[j], 0);
                crate::bits::lemma_bit_pop(rest0, pawn as u64, spec_initial(movelist@[j]) as u64);
            }
            if n < movelist@.len() {
                assert forall|x: u16|
                    #[trigger] pawn_capture_listed(x, pawns, color as int, filter, promoterow, first_only)
                        && !has_bit(rest, spec_initial(x) as u64) implies in_list(
                        movelist@,
                        idx as int,
                        n as int,
                        x,
                    ) by {
                    let s0 = spec_initial(x) as u64;
                    crate::moves::lemma_u16_fields(x, 0);
                    crate::bits::lemma_bit_pop(rest0, pawn as u64, s0);
                    crate::bits::lemma_bit_zero(spec_final(x) as u64);
                }
            }
        }
    }
    proof {
        assert forall|x: u16|
            #[trigger] pawn_capture_listed(x, pawns, color as int, filter, promoterow, first_only) implies !has_bit(
                rest,
                spec_initial(x) as u64,
            ) by {
            crate::bits::lemma_bit_zero(spec_initial(x) as u64);
        }
    }
    n
}

/// An en passant capture onto the target of `ep` by a pawn of `free` that attacks it, or by
/// the lowest such pawn of `pinned` when `allow_pinned`.
pub open spec fn ep_listed(m: u16, ep: u64, enemy: int, free: u64, pinned: u64, allow_pinned: bool) -> bool {
    let to = lowest(ep);
    let cand = pawn_bb(enemy, to as int);
    &&& spec_final(m) == to
    &&& spec_extra(m) == 5
    &&& (has_bit(cand & free, spec_initial(m) as u64) || (allow_pinned && cand & pinned != 0
        && spec_initial(m) == lowest(cand & pinned)))
}

/// Lists the en passant captures by the pawns of `free`, and by the lowest pawn of
/// `pinned` when `allow_pinned`; all of them when the list does not fill up.
fn emit_en_passant(
    tables: &AttackTables,
    movelist: &mut [u16],
    idx: usize,
    ep: u64,
    enemy: usize,
    free: u64,
    pinned: u64,
    allow_pinned: bool,
) -> (n: usize)
    requires
        tables.wf(),
        ep != 0,
        enemy <= 1,
        free & pinned == 0,
        idx <= old(movelist)@.len(),
    ensures
        final(movelist)@.len() == old(movelist)@.len(),
        idx <= n <= final(movelist)@.len(),
        forall|j: int| 0 <= j < idx ==> final(movelist)@[j] == old(movelist)@[j],
        forall|j: int| n <= j < final(movelist)@.len() ==> final(movelist)@[j] == old(movelist)@[j],
        forall|j: int|
            idx <= j < n ==> ep_listed(#[trigger] final(movelist)@[j], ep, enemy as int, free, pinned, allow_pinned),
        n < final(movelist)@.len() ==> forall|m: u16|
            #[trigger] ep_listed(m, ep, enemy as int, free, pinned, allow_pinned) ==> in_list(
                final(movelist)@,
                idx as int,
                n as int,
                m,
            ),
        distinct_in(final(movelist)@, idx as int, n as int),
{
    let ghost orig = movelist@;
    proof {
        lemma_lowest(ep);
    }
    let ensquare = ep.trailing_zeros() as usize;
    let candidates = tables.pawn[enemy][ensquare];
    let ghost set = candidates & free;
    let mut rest = candidates & free;
    proof {
        lemma_subset_self(set);
    }
    let mut n = idx;
    while rest != 0
        invariant
            tables.wf(),
            ep != 0,
            ensquare as u64 == lowest(ep),
            ensquare < 64,
            candidates == pawn_bb(enemy as int, ensquare as int),
            set == candidates & free,
            rest & !set == 0,
            movelist@.len() == orig.len(),
            idx <= n <= movelist@.len(),
            forall|j: int| 0 <= j < idx ==> movelist@[j] == orig[j],
            forall|j: int| n <= j < movelist@.len() ==> movelist@[j] == orig[j],
            forall|j: int|
                idx <= j < n ==> ep_listed(#[trigger] movelist@[j], ep, enemy as int, free, pinned, allow_pinned),
            n < movelist@.len() ==> forall|m: u16|
                #[trigger] ep_listed(m, ep, enemy as int, free, pinned, allow_pinned) && has_bit(
                    set,
                    spec_initial(m) as u64,
                ) && !has_bit(rest, spec_initial(m) as u64) ==> in_list(movelist@, idx as int, n as int, m),
            distinct_in(movelist@, idx as int, n as int),
            forall|j: int| idx <= j < n ==> !has_bit(rest, spec_initial(#[trigger] movelist@[j]) as u64) && has_bit(
                set,
                spec_initial(movelist@[j]) as u64,
            ),
            free & pinned == 0,
        decreases rest,
    {
        let pawn = rest.trailing_zeros() as u16;
        proof {
            lemma_pop_lowest(rest, pawn as u64);
            lemma_lowest(rest);
            lemma_subset_has(rest, set, pawn as u64);
            lemma_subset_step(rest, set, 1u64 << (pawn as u64));
        }
        let m = pack(pawn, ensquare as u16, 5);
        let ghost before = movelist@;
        let ghost rest0 = rest;
        let n0 = n;
        n = emit(movelist, n, m);
        rest = rest & !(1u64 << (pawn as u64));
        proof {
            assert forall|j: int| idx <= j < n implies !has_bit(rest, spec_initial(#[trigger] movelist@[j]) as u64) && has_bit(
                set,
                spec_initial(movelist@[j]) as u64,
            ) by {
                crate::moves::lemma_u16_fields(movelist@[j], 0);
                crate::bits::lemma_bit_pop(rest0, pawn as u64, spec_initial(movelist@[j]) as u64);
                if j < n0 {
                    assert(movelist@[j] == before[j]);
                }
            }
            assert forall|a: int, c: int| idx <= a < c < n implies #[trigger] movelist@[a] != #[trigger] movelist@[c] by {
                if c == n0 {
                    assert(movelist@[a] == before[a]);
                    assert(!has_bit(rest0, spec_initial(before[a]) as u64));
                } else {
                    assert(movelist@[a] == before[a] && movelist@[c] == before[c]);
                }
            }
            if n < movelist@.len() {
                assert forall|x: u16|
                    #[trigger] ep_listed(x, ep, enemy as int, free, pinned, allow_pinned) && has_bit(
                        set,
                        spec_initial(x) as u64,
                    ) && !has_bit(rest, spec_initial(x) as u64) implies in_list(
                        movelist@,
                        idx as int,
                        n as int,
                        x,
                    ) by {
                    let s0 = spec_initial(x) as u64;
                    crate::moves::lemma_u16_fields(x, 0);
                    crate::bits::lemma_bit_pop(rest0, pawn as u64, s0);
                    if s0 == pawn as u64 {
                        crate::moves::lemma_move_fields_eq(x, m);
                        assert(movelist@[n0 as int] == m);
                    } else {
                        lemma_in_list_keep(before, movelist@, idx as int, n0 as int, n as int, x);
                    }
                }
            }
        }
    }
    let ghost n_free = n;
    let ghost after_free = movelist@;
    proof {
        if n < movelist@.len() {
            assert forall|x: u16|
                #[trigger] ep_listed(x, ep, enemy as int, free, pinned, allow_pinned) && has_bit(
                    set,
                    spec_initial(x) as u64,
                ) implies in_list(movelist@, idx as int, n as int, x) by {
                crate::bits::lemma_bit_zero(spec_initial(x) as u64);
            }
        }
    }
    if allow_pinned {
        let pinned_takers = candidates & pinned;
        if pinned_takers != 0 {
            proof {
                lemma_lowest(pinned_takers);
            }
            let pawn = pinned_takers.trailing_zeros() as u16;
            let m = pack(pawn, ensquare as u16, 5);
            let n0 = n;
            let ghost before = movelist@;
            n = emit(movelist, n, m);
            proof {
                if n < movelist@.len() {
                    assert(movelist@[n0 as int] == m);
                }
                crate::bits::lemma_bit_and(candidates, pinned, pawn as u64);
                assert forall|a: int, c: int| idx <= a < c < n implies #[trigger] movelist@[a] != #[trigger] movelist@[c] by {
                    if c == n0 {
                        assert(movelist@[a] == before[a]);
                        let s0 = spec_initial(before[a]) as u64;
                        crate::moves::lemma_u16_fields(before[a], 0);
                        assert(has_bit(set, s0));
                        crate::bits::lemma_bit_and(candidates, free, s0);
                        crate::bits::lemma_bit_and(free, pinned, s0);
                        crate::bits::lemma_bit_zero(s0);
                    } else {
                        assert(movelist@[a] == before[a] && movelist@[c] == before[c]);
                    }
                }
            }
        }
    }
    proof {
        if n < movelist@.len() {
            assert forall|x: u16| #[trigger] ep_listed(x, ep, enemy as int, free, pinned, allow_pinned) implies in_list(
                movelist@,
                idx as int,
                n as int,
                x,
            ) by {
                crate::moves::lemma_u16_fields(x, 0);
                crate::bits::lemma_bit_and(candidates, free, spec_initial(x) as u64);
                if has_bit(set, spec_initial(x) as u64) {
                    lemma_in_list_keep(after_free, movelist@, idx as int, n_free as int, n as int, x);
                } else {
                    crate::moves::lemma_move_fields_eq(x, movelist@[n_free as int]);
                }
            }
        }
    }
    n
}

/// Extending a list whose first `n0` moves satisfy `all` by moves that satisfy `part`, a
/// narrower condition, keeps every move satisfying `all`.
proof fn lemma_keep(
    before: Seq<u16>,
    after: Seq<u16>,
    n0: int,
    n1: int,
    all: spec_fn(u16) -> bool,
    part: spec_fn(u16) -> bool,
)
    requires
        forall|j: int| 0 <= j < n0 ==> all(#[trigger] before[j]),
        forall|j: int| 0 <= j < n0 ==> after[j] == before[j],
        forall|j: int| n0 <= j < n1 ==> part(#[trigger] after[j]),
        forall|m: u16| #[trigger] part(m) ==> all(m),
    ensures
        forall|j: int| 0 <= j < n1 ==> all(#[trigger] after[j]),
{
    assert forall|j: int| 0 <= j < n1 implies all(#[trigger] after[j]) by {
        if j < n0 {
            assert(after[j] == before[j]);
            assert(all(before[j]));
        } else {
            assert(part(after[j]));
        }
    }
}

/// A list that holds every move of `done` in `lo..n0` and every move of `part` in
/// `n0..n1` holds every move of either in `lo..n1`, as long as it did not fill up.
proof fn lemma_grow(
    before: Seq<u16>,
    after: Seq<u16>,
    lo: int,
    n0: int,
    n1: int,
    done: spec_fn(u16) -> bool,
    part: spec_fn(u16) -> bool,
)
    requires
        0 <= lo <= n0 <= n1,
        before.len() == after.len(),
        forall|j: int| 0 <= j < n0 ==> after[j] == before[j],
        n0 < before.len() ==> forall|m: u16| #[trigger] done(m) ==> in_list(before, lo, n0, m),
        n1 < after.len() ==> forall|m: u16| #[trigger] part(m) ==> in_list(after, n0, n1, m),
    ensures
        n1 < after.len() ==> forall|m: u16| done(m) || part(m) ==> #[trigger] in_list(after, lo, n1, m),
{
    if n1 < after.len() {
        assert forall|m: u16| done(m) || part(m) implies #[trigger] in_list(after, lo, n1, m) by {
            if done(m) {
                lemma_in_list_keep(before, after, lo, n0, n1, m);
            } else {
                let k = choose|k: int| n0 <= k < n1 && #[trigger] after[k] == m;
                assert(lo <= k < n1);
            }
        }
    }
}

/// A list without repeats in `lo..n0`, of moves of stages below `k`, extended by a part
/// without repeats of moves of stage `k`, has no repeats in `lo..n1`.
proof fn lemma_distinct_grow(
    before: Seq<u16>,
    after: Seq<u16>,
    lo: int,
    n0: int,
    n1: int,
    stage: spec_fn(u16) -> int,
    k: int,
)
    requires
        0 <= lo <= n0 <= n1 <= after.len(),
        before.len() == after.len(),
        forall|j: int| 0 <= j < n0 ==> after[j] == before[j],
        distinct_in(before, lo, n0),
        forall|j: int| lo <= j < n0 ==> stage(#[trigger] before[j]) < k,
        distinct_in(after, n0, n1),
        forall|j: int| n0 <= j < n1 ==> stage(#[trigger] after[j]) == k,
    ensures
        distinct_in(after, lo, n1),
        forall|j: int| lo <= j < n1 ==> stage(#[trigger] after[j]) <= k,
{
    assert forall|a: int, c: int| lo <= a < c < n1 implies #[trigger] after[a] != #[trigger] after[c] by {
        if c < n0 {
            assert(after[a] == before[a] && after[c] == before[c]);
        } else if a < n0 {
            assert(after[a] == before[a]);
            assert(stage(before[a]) < k);
            assert(stage(after[c]) == k);
        }
    }
    assert forall|j: int| lo <= j < n1 implies stage(#[trigger] after[j]) <= k by {
        if j < n0 {
            assert(after[j] == before[j]);
        }
    }
}

/// `b` is `a` with the masks and en passant target that `refresh` sets.
pub open spec fn refreshed(a: Board, b: Board) -> bool {
    &&& b.pieceboards == a.pieceboards
    &&& b.occupancies == a.occupancies
    &&& b.side == a.side
    &&& b.castle == a.castle
    &&& b.key == a.key
    &&& b.enpassant == refresh_ep(a)
    &&& b.movemasks[0] == refresh_ban(a)
    &&& b.movemasks[1] == refresh_checkmask(a)
    &&& b.movemasks[2] == refresh_rook_pins(a)
    &&& b.movemasks[3] == refresh_bishop_pins(a)
    &&& b.movemasks[4] == refresh_king_moves(a)
}

/// Own squares that are not own pieces and lie within the check mask.
pub open spec fn moveable(b: Board) -> u64 {
    !b.occupancies[side_index(b)] & b.movemasks[1]
}

/// The squares holding pieces of the side not to move.
pub open spec fn foe_occ(b: Board) -> u64 {
    b.occupancies[1 - side_index(b)]
}

/// The squares from which a pawn of the side to move promotes.
pub open spec fn promote_row(b: Board) -> u64 {
    if side_index(b) == 0 {
        0xFF00u64
    } else {
        0xFF000000000000u64
    }
}

/// Own rooks and queens that are not pinned along a diagonal.
pub open spec fn rook_movers(b: Board) -> u64 {
    (b.pieceboards[own_base(b) + 4] | b.pieceboards[own_base(b) + 3]) & !b.movemasks[3]
}

/// Own bishops and queens that are not pinned along a rank or file.
pub open spec fn bishop_movers(b: Board) -> u64 {
    (b.pieceboards[own_base(b) + 4] | b.pieceboards[own_base(b) + 2]) & !b.movemasks[2]
}

/// Own pawns that may move diagonally: not pinned along a rank or file.
pub open spec fn diag_pawns(b: Board) -> u64 {
    b.pieceboards[own_base(b)] & !b.movemasks[2]
}

/// En passant is looked at: the target lies within the squares the side to move may reach,
/// or the check mask holds the checking pawn alone.
pub open spec fn ep_guard(b: Board) -> bool {
    let ep = b.enpassant;
    let mv = moveable(b);
    let shifted = if side_index(b) == 0 {
        ep << 8u64
    } else {
        ep >> 8u64
    };
    ep & mv != 0 || (mv != 0 && mv == shifted)
}

/// `m` is one of the captures that `generate_captures` lists for the board `b`, whose masks
/// are set: a capture by the king onto a square it may enter, by an unpinned knight, by a
/// rook, bishop or queen along its pin ray if pinned, by a pawn (promoting from the seventh
/// rank; a pawn pinned along a diagonal takes only its lowest target on the ray), or en
/// passant when `ep_guard` holds (by the free pawns, and by the lowest pinned one when the
/// target lies on a diagonal pin ray).
pub open spec fn capture_listed(b: Board, m: u16) -> bool {
    let pb = b.pieceboards;
    let mm = b.movemasks;
    let occ = b.occupancies[2];
    let foe = foe_occ(b);
    let mv = moveable(b);
    let diag = diag_pawns(b);
    ||| shaped(m, king_square(b), mm[4] & foe, 4)
    ||| listed(m, pb[own_base(b) + 1] & !(mm[2] | mm[3]), 1, occ, mv & foe, 4)
    ||| listed(m, rook_movers(b) & mm[2], 3, occ, mv & mm[2] & foe, 4)
    ||| listed(m, rook_movers(b) & !mm[2], 3, occ, mv & foe, 4)
    ||| listed(m, bishop_movers(b) & mm[3], 2, occ, mv & mm[3] & foe, 4)
    ||| listed(m, bishop_movers(b) & !mm[3], 2, occ, mv & foe, 4)
    ||| ep_guard(b) && ep_listed(
        m,
        b.enpassant,
        1 - side_index(b),
        diag & !mm[3],
        diag & mm[3],
        b.enpassant & mm[3] != 0,
    )
    ||| pawn_capture_listed(m, diag & !mm[3], side_index(b), foe & mm[1], promote_row(b), false)
    ||| pawn_capture_listed(m, diag & mm[3], side_index(b), foe & mm[1] & mm[3], promote_row(b), true)
}

/// No square holds two pieces.
pub open spec fn pieces_apart(b: Board) -> bool {
    forall|i: int, j: int| 0 <= i < j < 12 ==> #[trigger] b.pieceboards[i] & #[trigger] b.pieceboards[j] == 0
}

/// Which of the kinds of capture of `capture_listed` the move `m` is, in the order
/// `generate_captures` lists them; 9 for none.
pub open spec fn capture_stage(b: Board, m: u16) -> int {
    let pb = b.pieceboards;
    let mm = b.movemasks;
    let occ = b.occupancies[2];
    let foe = foe_occ(b);
    let mv = moveable(b);
    let diag = diag_pawns(b);
    if shaped(m, king_square(b), mm[4] & foe, 4) {
        0
    } else if listed(m, pb[own_base(b) + 1] & !(mm[2] | mm[3]), 1, occ, mv & foe, 4) {
        1
    } else if listed(m, rook_movers(b) & mm[2], 3, occ, mv & mm[2] & foe, 4) {
        2
    } else if listed(m, rook_movers(b) & !mm[2], 3, occ, mv & foe, 4) {
        3
    } else if listed(m, bishop_movers(b) & mm[3], 2, occ, mv & mm[3] & foe, 4) {
        4
    } else if listed(m, bishop_movers(b) & !mm[3], 2, occ, mv & foe, 4) {
        5
    } else if ep_guard(b) && ep_listed(
        m,
        b.enpassant,
        1 - side_index(b),
        diag & !mm[3],
        diag & mm[3],
        b.enpassant & mm[3] != 0,
    ) {
        6
    } else if pawn_capture_listed(m, diag & !mm[3], side_index(b), foe & mm[1], promote_row(b), false) {
        7
    } else if pawn_capture_listed(m, diag & mm[3], side_index(b), foe & mm[1] & mm[3], promote_row(b), true) {
        8
    } else {
        9
    }
}

/// The bits of the origin square of `m` in the boards and masks the kinds of capture
/// depend on.
proof fn lemma_origin_bits(b: Board, s: u64)
    requires
        s < 64,
        pieces_apart(b),
    ensures
        forall|i: int, j: int|
            0 <= i < j < 12 ==> !(#[trigger] has_bit(b.pieceboards[i], s) && #[trigger] has_bit(b.pieceboards[j], s)),
{
    assert forall|i: int, j: int|
        0 <= i < j < 12 implies !(#[trigger] has_bit(b.pieceboards[i], s) && #[trigger] has_bit(b.pieceboards[j], s)) by {
        crate::bits::lemma_bit_and(b.pieceboards[i], b.pieceboards[j], s);
        crate::bits::lemma_bit_zero(s);
    }
}

/// On a board whose squares hold one piece each, a move is at most one kind of capture.
proof fn lemma_capture_stage(b: Board, m: u16)
    requires
        pieces_apart(b),
    ensures
        capture_listed(b, m) ==> capture_stage(b, m) < 9,
        shaped(m, king_square(b), b.movemasks[4] & foe_occ(b), 4) ==> capture_stage(b, m) == 0,
        listed(m, b.pieceboards[own_base(b) + 1] & !(b.movemasks[2] | b.movemasks[3]), 1, b.occupancies[2], moveable(b) & foe_occ(b), 4)
            ==> capture_stage(b, m) == 1,
        listed(m, rook_movers(b) & b.movemasks[2], 3, b.occupancies[2], moveable(b) & b.movemasks[2] & foe_occ(b), 4)
            ==> capture_stage(b, m) == 2,
        listed(m, rook_movers(b) & !b.movemasks[2], 3, b.occupancies[2], moveable(b) & foe_occ(b), 4)
            ==> capture_stage(b, m) == 3,
        listed(m, bishop_movers(b) & b.movemasks[3], 2, b.occupancies[2], moveable(b) & b.movemasks[3] & foe_occ(b), 4)
            ==> capture_stage(b, m) == 4,
        listed(m, bishop_movers(b) & !b.movemasks[3], 2, b.occupancies[2], moveable(b) & foe_occ(b), 4)
            ==> capture_stage(b, m) == 5,
        ep_guard(b) && ep_listed(
            m,
            b.enpassant,
            1 - side_index(b),
            diag_pawns(b) & !b.movemasks[3],
            diag_pawns(b) & b.movemasks[3],
            b.enpassant & b.movemasks[3] != 0,
        ) ==> capture_stage(b, m) == 6,
        pawn_capture_listed(m, diag_pawns(b) & !b.movemasks[3], side_index(b), foe_occ(b) & b.movemasks[1], promote_row(b), false)
            ==> capture_stage(b, m) == 7,
        pawn_capture_listed(m, diag_pawns(b) & b.movemasks[3], side_index(b), foe_occ(b) & b.movemasks[1] & b.movemasks[3], promote_row(b), true)
            ==> capture_stage(b, m) == 8,
{
    let s = spec_initial(m) as u64;
    let t = spec_final(m) as u64;
    crate::moves::lemma_u16_fields(m, 0);
    lemma_origin_bits(b, s);
    let pb = b.pieceboards;
    let mm = b.movemasks;
    let o = own_base(b);
    let pk = pb[o + 5];
    if pk != 0 {
        lemma_lowest(pk);
    }
    crate::bits::lemma_bit_and(pb[o + 1], !(mm[2] | mm[3]), s);
    crate::bits::lemma_bit_not(mm[2] | mm[3], s);
    crate::bits::lemma_bit_or(mm[2], mm[3], s);
    crate::bits::lemma_bit_not(mm[2], s);
    crate::bits::lemma_bit_not(mm[3], s);
    crate::bits::lemma_bit_and(rook_movers(b), mm[2], s);
    crate::bits::lemma_bit_and(rook_movers(b), !mm[2], s);
    crate::bits::lemma_bit_and(pb[o + 4] | pb[o + 3], !mm[3], s);
    crate::bits::lemma_bit_or(pb[o + 4], pb[o + 3], s);
    crate::bits::lemma_bit_and(bishop_movers(b), mm[3], s);
    crate::bits::lemma_bit_and(bishop_movers(b), !mm[3], s);
    crate::bits::lemma_bit_and(pb[o + 4] | pb[o + 2], !mm[2], s);
    crate::bits::lemma_bit_or(pb[o + 4], pb[o + 2], s);
    crate::bits::lemma_bit_and(diag_pawns(b), !mm[3], s);
    crate::bits::lemma_bit_and(diag_pawns(b), mm[3], s);
    crate::bits::lemma_bit_and(pb[o], !mm[2], s);
    let occ = b.occupancies[2];
    crate::bits::lemma_bit_and(rook_bb(s as int, occ), moveable(b) & foe_occ(b), t);
    crate::bits::lemma_bit_and(bishop_bb(s as int, occ), moveable(b) & foe_occ(b), t);
    crate::geometry::lemma_rook_bishop_apart(s as int, occ, t);
    assert(o == 0 || o == 6);
    assert(!(has_bit(pb[o + 1], s) && has_bit(pb[o + 5], s)));
}

proof fn lemma_zero_shifts(x: u64)
    ensures
        0u64 << 8u64 == 0,
        0u64 >> 8u64 == 0,
        0u64 & x == 0,
        (x & !0u64) == x,
{
    crate::bits::lemma_u64_laws(x, 0, 0);
}

/// Sets the masks with `refresh`, then lists the captures of the side to move from the
/// start of `movelist`, as far as it has room; returns their number. Every listed move is a
/// capture that `capture_listed` describes, and when the list did not fill up every such
/// capture is listed.
pub fn generate_captures(tables: &AttackTables, board: &mut Board, movelist: &mut [u16]) -> (n: usize)
    requires
        tables.wf(),
        kings_present(*old(board)),
    ensures
        refreshed(*old(board), *final(board)),
        final(movelist)@.len() == old(movelist)@.len(),
        n <= final(movelist)@.len(),
        forall|j: int| 0 <= j < n ==> capture_listed(*final(board), #[trigger] final(movelist)@[j]),
        forall|j: int| n <= j < final(movelist)@.len() ==> final(movelist)@[j] == old(movelist)@[j],
        n < final(movelist)@.len() ==> forall|m: u16|
            #[trigger] capture_listed(*final(board), m) ==> in_list(final(movelist)@, 0, n as int, m),
        pieces_apart(*old(board)) ==> distinct_in(final(movelist)@, 0, n as int),
{
    refresh(tables, board);
    let ghost b = *board;
    let ghost all = |m: u16| capture_listed(b, m);
    let ghost stage = |m: u16| capture_stage(b, m);
    let ghost apart = pieces_apart(b);
    proof {
        assert forall|m: u16| apart implies (#[trigger] capture_listed(b, m) ==> capture_stage(b, m) < 9) by {
            lemma_capture_stage(b, m);
        }
    }
    let raw_side: usize = if board.side == Some(1) { 1 } else { 0 };
    let raw_enemy: usize = 1 - raw_side;
    let side = raw_side * 6;
    let occ = board.occupancies[2];
    let foe = board.occupancies[raw_enemy];
    let moveable = !board.occupancies[raw_side] & board.movemasks[1];
    let mm2 = board.movemasks[2];
    let mm3 = board.movemasks[3];
    proof {
        lemma_lowest(board.pieceboards[side + 5]);
    }
    // king
    let kingsq = board.pieceboards[side + 5].trailing_zeros() as u16;
    let king_caps = board.movemasks[4] & foe;
    let ghost before = movelist@;
    let mut n = emit_all(movelist, 0, kingsq, king_caps, 4);
    let ghost p0 = |m: u16| shaped(m, kingsq as int, king_caps, 4);
    let ghost done = p0;
    proof {
        lemma_keep(before, movelist@, 0, n as int, all, p0);
        if apart {
            assert forall|j: int| 0 <= j < n implies stage(#[trigger] movelist@[j]) == 0 by {
                lemma_capture_stage(b, movelist@[j]);
            }
        }
    }
    // knights
    let knights = board.pieceboards[side + 1] & !(mm2 | mm3);
    let ghost before = movelist@;
    let n0 = n;
    n = emit_piece_moves(tables, movelist, n, knights, 1, occ, moveable & foe, 4);
    let ghost p1 = |m: u16| listed(m, knights, 1, occ, moveable & foe, 4);
    proof {
        lemma_keep(before, movelist@, n0 as int, n as int, all, p1);
        lemma_grow(before, movelist@, 0, n0 as int, n as int, done, p1);
        if apart {
            assert forall|j: int| n0 <= j < n implies stage(#[trigger] movelist@[j]) == 1 by {
                lemma_capture_stage(b, movelist@[j]);
                assert(p1(movelist@[j]));
            }
            lemma_distinct_grow(before, movelist@, 0, n0 as int, n as int, stage, 1);
        }
    }
    let ghost done = |m: u16| done(m) || p1(m);
    // rooks and queens
    let rooksq = (board.pieceboards[side + 4] | board.pieceboards[side + 3]) & !mm3;
    let ghost before = movelist@;
    let n0 = n;
    n = emit_piece_moves(tables, movelist, n, rooksq & mm2, 3, occ, moveable & mm2 & foe, 4);
    let ghost p2 = |m: u16| listed(m, rooksq & mm2, 3, occ, moveable & mm2 & foe, 4);
    proof {
        lemma_keep(before, movelist@, n0 as int, n as int, all, p2);
        lemma_grow(before, movelist@, 0, n0 as int, n as int, done, p2);
        if apart {
            assert forall|j: int| n0 <= j < n implies stage(#[trigger] movelist@[j]) == 2 by {
                lemma_capture_stage(b, movelist@[j]);
                assert(p2(movelist@[j]));
            }
            lemma_distinct_grow(before, movelist@, 0, n0 as int, n as int, stage, 2);
        }
    }
    let ghost done = |m: u16| done(m) || p2(m);
    let ghost before = movelist@;
    let n0 = n;
    n = emit_piece_moves(tables, movelist, n, rooksq & !mm2, 3, occ, moveable & foe, 4);
    let ghost p3 = |m: u16| listed(m, rooksq & !mm2, 3, occ, moveable & foe, 4);
    proof {
        lemma_keep(before, movelist@, n0 as int, n as int, all, p3);
        lemma_grow(before, movelist@, 0, n0 as int, n as int, done, p3);
        if apart {
            assert forall|j: int| n0 <= j < n implies stage(#[trigger] movelist@[j]) == 3 by {
                lemma_capture_stage(b, movelist@[j]);
                assert(p3(movelist@[j]));
            }
            lemma_distinct_grow(before, movelist@, 0, n0 as int, n as int, stage, 3);
        }
    }
    let ghost done = |m: u16| done(m) || p3(m);
    // bishops and queens
    let bishopq = (board.pieceboards[side + 4] | board.pieceboards[side + 2]) & !mm2;
    let ghost before = movelist@;
    let n0 = n;
    n = emit_piece_moves(tables, movelist, n, bishopq & mm3, 2, occ, moveable & mm3 & foe, 4);
    let ghost p4 = |m: u16| listed(m, bishopq & mm3, 2, occ, moveable & mm3 & foe, 4);
    proof {
        lemma_keep(before, movelist@, n0 as int, n as int, all, p4);
        lemma_grow(before, movelist@, 0, n0 as int, n as int, done, p4);
        if apart {
            assert forall|j: int| n0 <= j < n implies stage(#[trigger] movelist@[j]) == 4 by {
                lemma_capture_stage(b, movelist@[j]);
                assert(p4(movelist@[j]));
            }
            lemma_distinct_grow(before, movelist@, 0, n0 as int, n as int, stage, 4);
        }
    }
    let ghost done = |m: u16| done(m) || p4(m);
    let ghost before = movelist@;
    let n0 = n;
    n = emit_piece_moves(tables, movelist, n, bishopq & !mm3, 2, occ, moveable & foe, 4);
    let ghost p5 = |m: u16| listed(m, bishopq & !mm3, 2, occ, moveable & foe, 4);
    proof {
        lemma_keep(before, movelist@, n0 as int, n as int, all, p5);
        lemma_grow(before, movelist@, 0, n0 as int, n as int, done, p5);
        if apart {
            assert forall|j: int| n0 <= j < n implies stage(#[trigger] movelist@[j]) == 5 by {
                lemma_capture_stage(b, movelist@[j]);
                assert(p5(movelist@[j]));
            }
            lemma_distinct_grow(before, movelist@, 0, n0 as int, n as int, stage, 5);
        }
    }
    let ghost done = |m: u16| done(m) || p5(m);
    // pawns
    let pawnsdiagonal = board.pieceboards[side] & !mm2;
    let pind = pawnsdiagonal & mm3;
    let nopind = pawnsdiagonal & !mm3;
    let promoterow: u64 = if raw_side == 0 { 0xFF00 } else { 0xFF000000000000 };
    let ep = board.enpassant;
    let shifted = if raw_side == 0 { ep << 8 } else { ep >> 8 };
    let ghost p6 = |m: u16| ep_guard(b) && ep_listed(m, ep, raw_enemy as int, nopind, pind, ep & mm3 != 0);
    let ghost before = movelist@;
    let n0 = n;
    if ep & moveable != 0 || (moveable != 0 && moveable == shifted) {
        proof {
            lemma_zero_shifts(moveable);
            crate::bits::lemma_u64_laws(pawnsdiagonal, mm3, 0);
        }
        n = emit_en_passant(tables, movelist, n, ep, raw_enemy, nopind, pind, ep & mm3 != 0);
        proof {
            lemma_keep(before, movelist@, n0 as int, n as int, all, |m: u16| ep_listed(m, ep, raw_enemy as int, nopind, pind, ep & mm3 != 0));
        }
    }
    proof {
        lemma_grow(before, movelist@, 0, n0 as int, n as int, done, p6);
        if apart {
            assert forall|j: int| n0 <= j < n implies stage(#[trigger] movelist@[j]) == 6 by {
                lemma_capture_stage(b, movelist@[j]);
                assert(p6(movelist@[j]));
            }
            lemma_distinct_grow(before, movelist@, 0, n0 as int, n as int, stage, 6);
        }
    }
    let ghost done = |m: u16| done(m) || p6(m);
    let ghost before = movelist@;
    let n0 = n;
    n = emit_pawn_captures(tables, movelist, n, nopind, raw_side, foe & board.movemasks[1], promoterow, false);
    let ghost p7 = |m: u16| pawn_capture_listed(m, nopind, raw_side as int, foe & b.movemasks[1], promoterow, false);
    proof {
        lemma_keep(before, movelist@, n0 as int, n as int, all, p7);
        lemma_grow(before, movelist@, 0, n0 as int, n as int, done, p7);
        if apart {
            assert forall|j: int| n0 <= j < n implies stage(#[trigger] movelist@[j]) == 7 by {
                lemma_capture_stage(b, movelist@[j]);
                assert(p7(movelist@[j]));
            }
            lemma_distinct_grow(before, movelist@, 0, n0 as int, n as int, stage, 7);
        }
    }
    let ghost done = |m: u16| done(m) || p7(m);
    let ghost before = movelist@;
    let n0 = n;
    n = emit_pawn_captures(tables, movelist, n, pind, raw_side, foe & board.movemasks[1] & mm3, promoterow, true);
    let ghost p8 = |m: u16| pawn_capture_listed(m, pind, raw_side as int, foe & b.movemasks[1] & mm3, promoterow, true);
    proof {
        lemma_keep(before, movelist@, n0 as int, n as int, all, p8);
        lemma_grow(before, movelist@, 0, n0 as int, n as int, done, p8);
        if apart {
            assert forall|j: int| n0 <= j < n implies stage(#[trigger] movelist@[j]) == 8 by {
                lemma_capture_stage(b, movelist@[j]);
                assert(p8(movelist@[j]));
            }
            lemma_distinct_grow(before, movelist@, 0, n0 as int, n as int, stage, 8);
        }
        if n < movelist@.len() {
            assert forall|m: u16| #[trigger] capture_listed(b, m) implies in_list(movelist@, 0, n as int, m) by {
                assert(done(m) || p8(m));
            }
        }
    }
    n
}

// ---------------------------------------------------------------------------
// quiet moves
/// A push target is inside the check mask, and on the pin ray of a pinned pawn.
pub open spec fn push_ok(t: int, mm1: u64, mm2: u64, pinned: bool) -> bool {
    &&& has_bit(mm1, t as u64)
    &&& pinned ==> has_bit(mm2, t as u64)
}

/// `m` pushes the pawn on `from` one square onto an empty square (promoting from
/// `promoterow`), or two squares from `pushrow` over an empty square onto an empty square.
pub open spec fn push_from(
    m: u16,
    from: int,
    white: bool,
    pinned: bool,
    occ: u64,
    mm1: u64,
    mm2: u64,
    promoterow: u64,
    pushrow: u64,
) -> bool {
    let to = spec_final(m);
    let one = if white {
        from - 8
    } else {
        from + 8
    };
    let two = if white {
        from - 16
    } else {
        from + 16
    };
    &&& spec_initial(m) == from
    &&& 0 <= one < 64
    &&& !has_bit(occ, one as u64)
    &&& {
        ||| to == one && push_ok(one, mm1, mm2, pinned) && pawn_flagged(
            m,
            from,
            one,
            has_bit(promoterow, from as u64),
            false,
        )
        ||| to == two && has_bit(pushrow, from as u64) && 0 <= two < 64 && !has_bit(occ, two as u64)
            && push_ok(two, mm1, mm2, pinned) && spec_extra(m) == 1
    }
}

/// `m` pushes a pawn of `pawns` as `push_from` says.
pub open spec fn push_shaped(
    m: u16,
    pawns: u64,
    white: bool,
    pinned: bool,
    occ: u64,
    mm1: u64,
    mm2: u64,
    promoterow: u64,
    pushrow: u64,
) -> bool {
    &&& has_bit(pawns, spec_initial(m) as u64)
    &&& push_from(m, spec_initial(m), white, pinned, occ, mm1, mm2, promoterow, pushrow)
}

/// Lists the pushes of the pawn on `pawn`, pinned along a rank or file when `pinned`; all of
/// them when the list does not fill up.
fn emit_pawn_pushes(
    movelist: &mut [u16],
    idx: usize,
    pawn: u16,
    white: bool,
    pinned: bool,
    occ: u64,
    mm1: u64,
    mm2: u64,
    promoterow: u64,
    pushrow: u64,
) -> (n: usize)
    requires
        pawn < 64,
        idx <= old(movelist)@.len(),
    ensures
        final(movelist)@.len() == old(movelist)@.len(),
        idx <= n <= final(movelist)@.len(),
        forall|j: int| 0 <= j < idx ==> final(movelist)@[j] == old(movelist)@[j],
        forall|j: int| n <= j < final(movelist)@.len() ==> final(movelist)@[j] == old(movelist)@[j],
        forall|j: int|
            idx <= j < n ==> push_from(
                #[trigger] final(movelist)@[j],
                pawn as int,
                white,
                pinned,
                occ,
                mm1,
                mm2,
                promoterow,
                pushrow,
            ),
        n < final(movelist)@.len() ==> forall|m: u16|
            #[trigger] push_from(m, pawn as int, white, pinned, occ, mm1, mm2, promoterow, pushrow)
                ==> in_list(final(movelist)@, idx as int, n as int, m),
        distinct_in(final(movelist)@, idx as int, n as int),
{
    let ghost orig = movelist@;
    let pawnb = 1u64 << (pawn as u64);
    let one_ok = if white { pawn >= 8 } else { pawn < 56 };
    let mut n = idx;
    let ghost mut n_single = idx;
    let ghost mut list_single = movelist@;
    proof {
        crate::bits::lemma_and_single(promoterow, pawn as u64);
        crate::bits::lemma_and_single(pushrow, pawn as u64);
        crate::bits::lemma_and_comm(pawnb, promoterow);
        crate::bits::lemma_and_comm(pawnb, pushrow);
    }
    if one_ok {
        let one: u16 = if white { pawn - 8 } else { pawn + 8 };
        let ob = 1u64 << (one as u64);
        proof {
            crate::bits::lemma_and_single(occ, one as u64);
            crate::bits::lemma_and_single(mm1, one as u64);
            crate::bits::lemma_and_single(mm2, one as u64);
            crate::bits::lemma_and_comm(ob, occ);
            crate::bits::lemma_and_comm(ob, mm1);
            crate::bits::lemma_and_comm(ob, mm2);
        }
        if ob & occ == 0 {
            if ob & mm1 != 0 && (!pinned || ob & mm2 != 0) {
                let promote = pawnb & promoterow != 0;
                n = emit_pawn_move(movelist, n, pawn, one, promote, false);
            }
            proof {
                n_single = n;
                list_single = movelist@;
            }
            let two_ok = if white { pawn >= 16 } else { pawn < 48 };
            if pawnb & pushrow != 0 && two_ok {
                let two: u16 = if white { pawn - 16 } else { pawn + 16 };
                let tb = 1u64 << (two as u64);
                proof {
                    crate::bits::lemma_and_single(occ, two as u64);
                    crate::bits::lemma_and_single(mm1, two as u64);
                    crate::bits::lemma_and_single(mm2, two as u64);
                    crate::bits::lemma_and_comm(tb, occ);
                    crate::bits::lemma_and_comm(tb, mm1);
                    crate::bits::lemma_and_comm(tb, mm2);
                }
                if tb & occ == 0 && tb & mm1 != 0 && (!pinned || tb & mm2 != 0) {
                    let m = pack(pawn, two, 1);
                    let ghost before = movelist@;
                    n = emit(movelist, n, m);
                    proof {
                        if n < movelist@.len() {
                            assert(movelist@[n_single as int] == m);
                        }
                        assert forall|a: int, c: int| idx <= a < c < n implies #[trigger] movelist@[a]
                            != #[trigger] movelist@[c] by {
                            if c == n_single {
                                assert(movelist@[a] == before[a]);
                                assert(spec_final(before[a]) == one);
                            } else {
                                assert(movelist@[a] == before[a] && movelist@[c] == before[c]);
                            }
                        }
                    }
                }
            }
        }
    }
    proof {
        if n < movelist@.len() {
            assert forall|x: u16|
                #[trigger] push_from(x, pawn as int, white, pinned, occ, mm1, mm2, promoterow, pushrow)
                    implies in_list(movelist@, idx as int, n as int, x) by {
                let one = if white { pawn - 8 } else { pawn + 8 };
                let two = if white { pawn - 16 } else { pawn + 16 };
                if spec_final(x) == one {
                    assert(in_list(list_single, idx as int, n_single as int, x));
                    lemma_in_list_keep(list_single, movelist@, idx as int, n_single as int, n as int, x);
                } else {
                    crate::moves::lemma_move_fields_eq(x, movelist@[n_single as int]);
                }
            }
        }
    }
    n
}

/// Lists the pushes of the pawns of `pawns`, pinned along a rank or file when `pinned`; all
/// of them when the list does not fill up.
fn emit_pushes(
    movelist: &mut [u16],
    idx: usize,
    pawns: u64,
    white: bool,
    pinned: bool,
    occ: u64,
    mm1: u64,
    mm2: u64,
    promoterow: u64,
    pushrow: u64,
) -> (n: usize)
    requires
        idx <= old(movelist)@.len(),
    ensures
        final(movelist)@.len() == old(movelist)@.len(),
        idx <= n <= final(movelist)@.len(),
        forall|j: int| 0 <= j < idx ==> final(movelist)@[j] == old(movelist)@[j],
        forall|j: int| n <= j < final(movelist)@.len() ==> final(movelist)@[j] == old(movelist)@[j],
        forall|j: int|
            idx <= j < n ==> push_shaped(
                #[trigger] final(movelist)@[j],
                pawns,
                white,
                pinned,
                occ,
                mm1,
                mm2,
                promoterow,
                pushrow,
            ),
        n < final(movelist)@.len() ==> forall|m: u16|
            #[trigger] push_shaped(m, pawns, white, pinned, occ, mm1, mm2, promoterow, pushrow)
                ==> in_list(final(movelist)@, idx as int, n as int, m),
        distinct_in(final(movelist)@, idx as int, n as int),
{
    let ghost orig = movelist@;
    let mut n = idx;
    let mut rest = pawns;
    proof {
        lemma_subset_self(pawns);
    }
    while rest != 0
        invariant
            movelist@.len() == orig.len(),
            idx <= n <= movelist@.len(),
            rest & !pawns == 0,
            forall|j: int| 0 <= j < idx ==> movelist@[j] == orig[j],
            forall|j: int| n <= j < movelist@.len() ==> movelist@[j] == orig[j],
            forall|j: int|
                idx <= j < n ==> push_shaped(
                    #[trigger] movelist@[j],
                    pawns,
                    white,
                    pinned,
                    occ,
                    mm1,
                    mm2,
                    promoterow,
                    pushrow,
                ),
            n < movelist@.len() ==> forall|m: u16|
                #[trigger] push_shaped(m, pawns, white, pinned, occ, mm1, mm2, promoterow, pushrow)
                    && !has_bit(rest, spec_initial(m) as u64) ==> in_list(movelist@, idx as int, n as int, m),
            distinct_in(movelist@, idx as int, n as int),
            forall|j: int| idx <= j < n ==> !has_bit(rest, spec_initial(#[trigger] movelist@[j]) as u64),
        decreases rest,
    {
        let pawn = rest.trailing_zeros() as u16;
        proof {
            lemma_pop_lowest(rest, pawn as u64);
            lemma_lowest(rest);
            lemma_subset_has(rest, pawns, pawn as u64);
            lemma_subset_step(rest, pawns, 1u64 << (pawn as u64));
        }
        let ghost before = movelist@;
        let ghost rest0 = rest;
        let n0 = n;
        n = emit_pawn_pushes(movelist, n, pawn, white, pinned, occ, mm1, mm2, promoterow, pushrow);
        rest = rest & !(1u64 << (pawn as u64));
        assert forall|j: int| idx <= j < n implies push_shaped(
            #[trigger] movelist@[j],
            pawns,
            white,
            pinned,
            occ,
            mm1,
            mm2,
            promoterow,
            pushrow,
        ) by {
            if j < n0 {
                assert(movelist@[j] == before[j]);
            } else {
                assert(push_from(movelist@[j], pawn as int, white, pinned, occ, mm1, mm2, promoterow, pushrow));
            }
        }
        proof {
            assert forall|j: int| idx <= j < n implies !has_bit(rest, spec_initial(#[trigger] movelist@[j]) as u64) by {
                crate::moves::lemma_u16_fields(movelist@[j], 0);
                crate::bits::lemma_bit_pop(rest0, pawn as u64, spec_initial(movelist@[j]) as u64);
                if j < n0 {
                    assert(movelist@[j] == before[j]);
                } else {
                    assert(push_from(movelist@[j], pawn as int, white, pinned, occ, mm1, mm2, promoterow, pushrow));
                }
            }
            assert forall|a: int, c: int| idx <= a < c < n implies #[trigger] movelist@[a] != #[trigger] movelist@[c] by {
                if c >= n0 {
                    if a < n0 {
                        assert(movelist@[a] == before[a]);
                        assert(!has_bit(rest0, spec_initial(before[a]) as u64));
                        assert(push_from(movelist@[c], pawn as int, white, pinned, occ, mm1, mm2, promoterow, pushrow));
                    }
                } else {
                    assert(movelist@[a] == before[a] && movelist@[c] == before[c]);
                }
            }
            if n < movelist@.len() {
                assert forall|x: u16|
                    #[trigger] push_shaped(x, pawns, white, pinned, occ, mm1, mm2, promoterow, pushrow)
                        && !has_bit(rest, spec_initial(x) as u64) implies in_list(
                        movelist@,
                        idx as int,
                        n as int,
                        x,
                    ) by {
                    let s0 = spec_initial(x) as u64;
                    crate::moves::lemma_u16_fields(x, 0);
                    crate::bits::lemma_bit_pop(rest0, pawn as u64, s0);
                    if s0 == pawn as u64 {
                        assert(push_from(x, pawn as int, white, pinned, occ, mm1, mm2, promoterow, pushrow));
                        let k = choose|k: int| n0 <= k < n && #[trigger] movelist@[k] == x;
                        assert(idx <= k < n);
                    } else {
                        lemma_in_list_keep(before, movelist@, idx as int, n0 as int, n as int, x);
                    }
                }
            }
        }
    }
    proof {
        assert forall|x: u16|
            #[trigger] push_shaped(x, pawns, white, pinned, occ, mm1, mm2, promoterow, pushrow) implies !has_bit(
                rest,
                spec_initial(x) as u64,
            ) by {
            crate::bits::lemma_bit_zero(spec_initial(x) as u64);
        }
    }
    n
}

/// The castling masks of a side: squares the king crosses and squares that must be empty,
/// king side then queen side.
pub open spec fn castle_masks(side: int) -> (u64, u64, u64, u64) {
    if side == 0 {
        (0x7000000000000000u64, 0x6000000000000000u64, 0x1C00000000000000u64, 0xE00000000000000u64)
    } else {
        (0x70u64, 0x60u64, 0x1Cu64, 0xEu64)
    }
}

/// `m` castles king side: the right is held, the king's path is not attacked and the squares
/// between king and rook are empty.
pub open spec fn castle_king_side(b: Board, m: u16) -> bool {
    let k = king_square(b);
    let rights = b.castle >> (2 * side_index(b)) as u8;
    let (m1, m2, m3, m4) = castle_masks(side_index(b));
    &&& spec_initial(m) == k
    &&& spec_final(m) == k + 2
    &&& spec_extra(m) == 2
    &&& rights & 1 == 1
    &&& m1 & b.movemasks[0] == 0
    &&& m2 & b.occupancies[2] == 0
}

/// `m` castles queen side, as `castle_king_side` says for the other wing.
pub open spec fn castle_queen_side(b: Board, m: u16) -> bool {
    let k = king_square(b);
    let rights = b.castle >> (2 * side_index(b)) as u8;
    let (m1, m2, m3, m4) = castle_masks(side_index(b));
    &&& spec_initial(m) == k
    &&& spec_final(m) == k - 2
    &&& spec_extra(m) == 3
    &&& rights & 2 == 2
    &&& m3 & b.movemasks[0] == 0
    &&& m4 & b.occupancies[2] == 0
}

/// `m` castles on either wing.
pub open spec fn castle_listed(b: Board, m: u16) -> bool {
    castle_king_side(b, m) || castle_queen_side(b, m)
}

/// A castle is listed only when the king's square, the square it crosses and the square it
/// lands on are all outside the squares the enemy attacks: no castling out of, through or
/// into check.
pub proof fn lemma_no_castling_through_attack(b: Board, m: u16)
    requires
        castle_listed(b, m),
        spec_initial(m) == (if side_index(b) == 0 { 60int } else { 4int }),
    ensures
        !has_bit(b.movemasks[0], spec_initial(m) as u64),
        !has_bit(b.movemasks[0], ((spec_initial(m) + spec_final(m)) / 2) as u64),
        !has_bit(b.movemasks[0], spec_final(m) as u64),
{
    let ban = b.movemasks[0];
    let (m1, m2, m3, m4) = castle_masks(side_index(b));
    let i = spec_initial(m) as u64;
    let c = ((spec_initial(m) + spec_final(m)) / 2) as u64;
    let f = spec_final(m) as u64;
    if side_index(b) == 0 {
        assert(m1 == 0x7000000000000000u64 && m3 == 0x1C00000000000000u64);
        if castle_king_side(b, m) {
            assert(i == 60 && c == 61 && f == 62);
            assert(m1 & ban == 0);
            assert(0x7000000000000000u64 & ban == 0);
            assert(0x7000000000000000u64 & ban == 0 ==> (ban >> 60u64) & 1u64 == 0 && (ban >> 61u64) & 1u64 == 0
                && (ban >> 62u64) & 1u64 == 0) by (bit_vector);
        } else {
            assert(i == 60 && c == 59 && f == 58);
            assert(m3 & ban == 0);
            assert(0x1C00000000000000u64 & ban == 0);
            assert(0x1C00000000000000u64 & ban == 0 ==> (ban >> 60u64) & 1u64 == 0 && (ban >> 59u64) & 1u64 == 0
                && (ban >> 58u64) & 1u64 == 0) by (bit_vector);
        }
    } else {
        assert(m1 == 0x70u64 && m3 == 0x1Cu64);
        if castle_king_side(b, m) {
            assert(i == 4 && c == 5 && f == 6);
            assert(m1 & ban == 0);
            assert(0x70u64 & ban == 0);
            assert(0x70u64 & ban == 0 ==> (ban >> 4u64) & 1u64 == 0 && (ban >> 5u64) & 1u64 == 0 && (ban >> 6u64)
                & 1u64 == 0) by (bit_vector);
        } else {
            assert(i == 4 && c == 3 && f == 2);
            assert(m3 & ban == 0);
            assert(0x1Cu64 & ban == 0);
            assert(0x1Cu64 & ban == 0 ==> (ban >> 4u64) & 1u64 == 0 && (ban >> 3u64) & 1u64 == 0 && (ban >> 2u64)
                & 1u64 == 0) by (bit_vector);
        }
    }
}

/// Own pawns that may move forward: not pinned along a diagonal.
pub open spec fn forward_pawns(b: Board) -> u64 {
    b.pieceboards[own_base(b)] & !b.movemasks[3]
}

/// The squares from which a pawn of the side to move may push two squares.
pub open spec fn push_row(b: Board) -> u64 {
    if side_index(b) == 0 {
        0xFF000000000000u64
    } else {
        0xFF00u64
    }
}

/// `m` is one of the quiet moves that `generate_quiets` lists for the board `b`, whose masks
/// are set: a king step onto an empty square it may enter, a castle, a non-capturing move of
/// an unpinned knight or of a rook, bishop or queen along its pin ray if pinned, or a pawn
/// push.
pub open spec fn quiet_listed(b: Board, m: u16) -> bool {
    let pb = b.pieceboards;
    let mm = b.movemasks;
    let occ = b.occupancies[2];
    let nf = !foe_occ(b);
    let mv = moveable(b);
    let pf = forward_pawns(b);
    let white = side_index(b) == 0;
    ||| shaped(m, king_square(b), mm[4] & !occ, 0)
    ||| castle_listed(b, m)
    ||| listed(m, pb[own_base(b) + 1] & !(mm[2] | mm[3]), 1, occ, mv & nf, 0)
    ||| listed(m, rook_movers(b) & mm[2], 3, occ, mv & mm[2] & nf, 0)
    ||| listed(m, rook_movers(b) & !mm[2], 3, occ, mv & nf, 0)
    ||| listed(m, bishop_movers(b) & mm[3], 2, occ, mv & mm[3] & nf, 0)
    ||| listed(m, bishop_movers(b) & !mm[3], 2, occ, mv & nf, 0)
    ||| push_shaped(m, pf & !mm[2], white, false, occ, mm[1], mm[2], promote_row(b), push_row(b))
    ||| push_shaped(m, pf & mm[2], white, true, occ, mm[1], mm[2], promote_row(b), push_row(b))
}

/// Which of the kinds of quiet move of `quiet_listed` the move `m` is, in the order
/// `generate_quiets` lists them; 10 for none.
pub open spec fn quiet_stage(b: Board, m: u16) -> int {
    let pb = b.pieceboards;
    let mm = b.movemasks;
    let occ = b.occupancies[2];
    let nf = !foe_occ(b);
    let mv = moveable(b);
    let pf = forward_pawns(b);
    let white = side_index(b) == 0;
    if shaped(m, king_square(b), mm[4] & !occ, 0) {
        0
    } else if castle_king_side(b, m) {
        1
    } else if castle_queen_side(b, m) {
        2
    } else if listed(m, pb[own_base(b) + 1] & !(mm[2] | mm[3]), 1, occ, mv & nf, 0) {
        3
    } else if listed(m, rook_movers(b) & mm[2], 3, occ, mv & mm[2] & nf, 0) {
        4
    } else if listed(m, rook_movers(b) & !mm[2], 3, occ, mv & nf, 0) {
        5
    } else if listed(m, bishop_movers(b) & mm[3], 2, occ, mv & mm[3] & nf, 0) {
        6
    } else if listed(m, bishop_movers(b) & !mm[3], 2, occ, mv & nf, 0) {
        7
    } else if push_shaped(m, pf & !mm[2], white, false, occ, mm[1], mm[2], promote_row(b), push_row(b)) {
        8
    } else if push_shaped(m, pf & mm[2], white, true, occ, mm[1], mm[2], promote_row(b), push_row(b)) {
        9
    } else {
        10
    }
}

/// On a board whose squares hold one piece each, a move is at most one kind of quiet move.
proof fn lemma_quiet_stage(b: Board, m: u16)
    requires
        pieces_apart(b),
    ensures
        quiet_listed(b, m) ==> quiet_stage(b, m) < 10,
        shaped(m, king_square(b), b.movemasks[4] & !b.occupancies[2], 0) ==> quiet_stage(b, m) == 0,
        castle_king_side(b, m) ==> quiet_stage(b, m) == 1,
        castle_queen_side(b, m) ==> quiet_stage(b, m) == 2,
        listed(m, b.pieceboards[own_base(b) + 1] & !(b.movemasks[2] | b.movemasks[3]), 1, b.occupancies[2], moveable(b) & !foe_occ(b), 0)
            ==> quiet_stage(b, m) == 3,
        listed(m, rook_movers(b) & b.movemasks[2], 3, b.occupancies[2], moveable(b) & b.movemasks[2] & !foe_occ(b), 0)
            ==> quiet_stage(b, m) == 4,
        listed(m, rook_movers(b) & !b.movemasks[2], 3, b.occupancies[2], moveable(b) & !foe_occ(b), 0)
            ==> quiet_stage(b, m) == 5,
        listed(m, bishop_movers(b) & b.movemasks[3], 2, b.occupancies[2], moveable(b) & b.movemasks[3] & !foe_occ(b), 0)
            ==> quiet_stage(b, m) == 6,
        listed(m, bishop_movers(b) & !b.movemasks[3], 2, b.occupancies[2], moveable(b) & !foe_occ(b), 0)
            ==> quiet_stage(b, m) == 7,
        push_shaped(m, forward_pawns(b) & !b.movemasks[2], side_index(b) == 0, false, b.occupancies[2], b.movemasks[1], b.movemasks[2], promote_row(b), push_row(b))
            ==> quiet_stage(b, m) == 8,
        push_shaped(m, forward_pawns(b) & b.movemasks[2], side_index(b) == 0, true, b.occupancies[2], b.movemasks[1], b.movemasks[2], promote_row(b), push_row(b))
            ==> quiet_stage(b, m) == 9,
{
    let s = spec_initial(m) as u64;
    let t = spec_final(m) as u64;
    crate::moves::lemma_u16_fields(m, 0);
    lemma_origin_bits(b, s);
    let pb = b.pieceboards;
    let mm = b.movemasks;
    let o = own_base(b);
    let pk = pb[o + 5];
    if pk != 0 {
        lemma_lowest(pk);
    }
    crate::bits::lemma_bit_and(pb[o + 1], !(mm[2] | mm[3]), s);
    crate::bits::lemma_bit_not(mm[2] | mm[3], s);
    crate::bits::lemma_bit_or(mm[2], mm[3], s);
    crate::bits::lemma_bit_not(mm[2], s);
    crate::bits::lemma_bit_not(mm[3], s);
    crate::bits::lemma_bit_and(rook_movers(b), mm[2], s);
    crate::bits::lemma_bit_and(rook_movers(b), !mm[2], s);
    crate::bits::lemma_bit_and(pb[o + 4] | pb[o + 3], !mm[3], s);
    crate::bits::lemma_bit_or(pb[o + 4], pb[o + 3], s);
    crate::bits::lemma_bit_and(bishop_movers(b), mm[3], s);
    crate::bits::lemma_bit_and(bishop_movers(b), !mm[3], s);
    crate::bits::lemma_bit_and(pb[o + 4] | pb[o + 2], !mm[2], s);
    crate::bits::lemma_bit_or(pb[o + 4], pb[o + 2], s);
    crate::bits::lemma_bit_and(forward_pawns(b), !mm[2], s);
    crate::bits::lemma_bit_and(forward_pawns(b), mm[2], s);
    crate::bits::lemma_bit_and(pb[o], !mm[3], s);
    let occ = b.occupancies[2];
    crate::bits::lemma_bit_and(rook_bb(s as int, occ), moveable(b) & !foe_occ(b), t);
    crate::bits::lemma_bit_and(bishop_bb(s as int, occ), moveable(b) & !foe_occ(b), t);
    crate::geometry::lemma_rook_bishop_apart(s as int, occ, t);
    assert(o == 0 || o == 6);
}

/// Captures and quiet moves differ in their capture flag.
proof fn lemma_capture_or_quiet(b: Board, m: u16)
    ensures
        capture_listed(b, m) ==> spec_extra(m) % 8 >= 4,
        quiet_listed(b, m) ==> spec_extra(m) % 8 < 4,
{
    crate::moves::lemma_u16_fields(m, 0);
}

/// Lists the quiet moves of the side to move from index `i` of `movelist`, as far as it has
/// room, with the masks that the last `refresh` set; returns the index after the last one.
/// A king on the first two files of its rank gets no queen-side castle and one on the last
/// two files no king-side castle: the target would be off the board.
pub fn generate_quiets(tables: &AttackTables, board: &mut Board, movelist: &mut [u16], i: usize) -> (n: usize)
    requires
        tables.wf(),
        i <= old(movelist)@.len(),
        old(board).pieceboards[own_base(*old(board)) + 5] != 0,
    ensures
        *final(board) == *old(board),
        final(movelist)@.len() == old(movelist)@.len(),
        i <= n <= final(movelist)@.len(),
        forall|j: int| 0 <= j < i ==> final(movelist)@[j] == old(movelist)@[j],
        forall|j: int| n <= j < final(movelist)@.len() ==> final(movelist)@[j] == old(movelist)@[j],
        forall|j: int| i <= j < n ==> quiet_listed(*final(board), #[trigger] final(movelist)@[j]),
        n < final(movelist)@.len() ==> forall|m: u16|
            #[trigger] quiet_listed(*final(board), m) ==> in_list(final(movelist)@, i as int, n as int, m),
        pieces_apart(*old(board)) ==> distinct_in(final(movelist)@, i as int, n as int),
{
    let ghost b = *board;
    let ghost all = |m: u16| quiet_listed(b, m);
    let ghost stage = |m: u16| quiet_stage(b, m);
    let ghost apart = pieces_apart(b);
    let ghost orig = movelist@;
    let raw_side: usize = if board.side == Some(1) { 1 } else { 0 };
    let raw_enemy: usize = 1 - raw_side;
    let side = raw_side * 6;
    let occ = board.occupancies[2];
    let notfoe = !board.occupancies[raw_enemy];
    let moveable = !board.occupancies[raw_side] & board.movemasks[1];
    let mm2 = board.movemasks[2];
    let mm3 = board.movemasks[3];
    proof {
        lemma_lowest(board.pieceboards[side + 5]);
        assert forall|j: int| i <= j < i implies all(#[trigger] movelist@[j]) by {}
    }
    let kingsq = board.pieceboards[side + 5].trailing_zeros() as u16;
    // king steps
    let ghost before = movelist@;
    let mut n = emit_all(movelist, i, kingsq, board.movemasks[4] & !occ, 0);
    let ghost done = |m: u16| shaped(m, kingsq as int, b.movemasks[4] & !occ, 0);
    proof {
        assert forall|j: int| i <= j < n implies all(#[trigger] movelist@[j]) by {
            assert(shaped(movelist@[j], kingsq as int, b.movemasks[4] & !occ, 0));
        }
        if apart {
            assert forall|j: int| i <= j < n implies stage(#[trigger] movelist@[j]) == 0 by {
                lemma_quiet_stage(b, movelist@[j]);
            }
        }
    }
    // castling
    let rights = board.castle >> ((2 * raw_side) as u8);
    let (m1, m2, m3, m4): (u64, u64, u64, u64) = if raw_side == 0 {
        (0x7000000000000000, 0x6000000000000000, 0x1C00000000000000, 0xE00000000000000)
    } else {
        (0x70, 0x60, 0x1C, 0xE)
    };
    let ghost pk = |m: u16| castle_king_side(b, m);
    let ghost before = movelist@;
    let n0 = n;
    if rights & 1 == 1 && m1 & board.movemasks[0] == 0 && m2 & occ == 0 && kingsq + 2 < 64 {
        let m = pack(kingsq, kingsq + 2, 2);
        n = emit(movelist, n, m);
        proof {
            assert forall|j: int| i <= j < n implies all(#[trigger] movelist@[j]) by {
                if j < n0 {
                    assert(movelist@[j] == before[j]);
                } else {
                    assert(castle_listed(b, movelist@[j]));
                }
            }
            if n < movelist@.len() {
                assert(movelist@[n0 as int] == m);
                assert forall|x: u16| #[trigger] pk(x) implies in_list(movelist@, n0 as int, n as int, x) by {
                    crate::moves::lemma_move_fields_eq(x, m);
                }
            }
        }
    } else {
        proof {
            assert forall|x: u16| #[trigger] pk(x) implies in_list(movelist@, n0 as int, n as int, x) by {
                crate::moves::lemma_u16_fields(x, 0);
            }
        }
    }
    proof {
        lemma_grow(before, movelist@, i as int, n0 as int, n as int, done, pk);
        if apart {
            assert forall|j: int| n0 <= j < n implies stage(#[trigger] movelist@[j]) == 1 by {
                lemma_quiet_stage(b, movelist@[j]);
                assert(pk(movelist@[j]));
            }
            assert(distinct_in(movelist@, n0 as int, n as int));
            lemma_distinct_grow(before, movelist@, i as int, n0 as int, n as int, stage, 1);
        }
    }
    let ghost done = |m: u16| done(m) || pk(m);
    let ghost pq = |m: u16| castle_queen_side(b, m);
    let ghost before = movelist@;
    let n0 = n;
    if rights & 2 == 2 && m3 & board.movemasks[0] == 0 && m4 & occ == 0 && kingsq >= 2 {
        let m = pack(kingsq, kingsq - 2, 3);
        n = emit(movelist, n, m);
        proof {
            assert forall|j: int| i <= j < n implies all(#[trigger] movelist@[j]) by {
                if j < n0 {
                    assert(movelist@[j] == before[j]);
                } else {
                    assert(castle_listed(b, movelist@[j]));
                }
            }
            if n < movelist@.len() {
                assert(movelist@[n0 as int] == m);
                assert forall|x: u16| #[trigger] pq(x) implies in_list(movelist@, n0 as int, n as int, x) by {
                    crate::moves::lemma_move_fields_eq(x, m);
                }
            }
        }
    } else {
        proof {
            assert forall|x: u16| #[trigger] pq(x) implies in_list(movelist@, n0 as int, n as int, x) by {
                crate::moves::lemma_u16_fields(x, 0);
            }
        }
    }
    proof {
        lemma_grow(before, movelist@, i as int, n0 as int, n as int, done, pq);
        if apart {
            assert forall|j: int| n0 <= j < n implies stage(#[trigger] movelist@[j]) == 2 by {
                lemma_quiet_stage(b, movelist@[j]);
                assert(pq(movelist@[j]));
            }
            assert(distinct_in(movelist@, n0 as int, n as int));
            lemma_distinct_grow(before, movelist@, i as int, n0 as int, n as int, stage, 2);
        }
    }
    let ghost done = |m: u16| done(m) || pq(m);
    // knights, rooks, bishops and queens
    let knights = board.pieceboards[side + 1] & !(mm2 | mm3);
    let ghost before = movelist@;
    let n0 = n;
    n = emit_piece_moves(tables, movelist, n, knights, 1, occ, moveable & notfoe, 0);
    let ghost p1 = |m: u16| listed(m, knights, 1, occ, moveable & notfoe, 0);
    proof {
        lemma_keep_from(before, movelist@, i as int, n0 as int, n as int, all, p1);
        lemma_grow(before, movelist@, i as int, n0 as int, n as int, done, p1);
        if apart {
            assert forall|j: int| n0 <= j < n implies stage(#[trigger] movelist@[j]) == 3 by {
                lemma_quiet_stage(b, movelist@[j]);
                assert(p1(movelist@[j]));
            }
            assert(distinct_in(movelist@, n0 as int, n as int));
            lemma_distinct_grow(before, movelist@, i as int, n0 as int, n as int, stage, 3);
        }
    }
    let ghost done = |m: u16| done(m) || p1(m);
    let rooksq = (board.pieceboards[side + 4] | board.pieceboards[side + 3]) & !mm3;
    let ghost before = movelist@;
    let n0 = n;
    n = emit_piece_moves(tables, movelist, n, rooksq & mm2, 3, occ, moveable & mm2 & notfoe, 0);
    let ghost p2 = |m: u16| listed(m, rooksq & mm2, 3, occ, moveable & mm2 & notfoe, 0);
    proof {
        lemma_keep_from(before, movelist@, i as int, n0 as int, n as int, all, p2);
        lemma_grow(before, movelist@, i as int, n0 as int, n as int, done, p2);
        if apart {
            assert forall|j: int| n0 <= j < n implies stage(#[trigger] movelist@[j]) == 4 by {
                lemma_quiet_stage(b, movelist@[j]);
                assert(p2(movelist@[j]));
            }
            assert(distinct_in(movelist@, n0 as int, n as int));
            lemma_distinct_grow(before, movelist@, i as int, n0 as int, n as int, stage, 4);
        }
    }
    let ghost done = |m: u16| done(m) || p2(m);
    let ghost before = movelist@;
    let n0 = n;
    n = emit_piece_moves(tables, movelist, n, rooksq & !mm2, 3, occ, moveable & notfoe, 0);
    let ghost p3 = |m: u16| listed(m, rooksq & !mm2, 3, occ, moveable & notfoe, 0);
    proof {
        lemma_keep_from(before, movelist@, i as int, n0 as int, n as int, all, p3);
        lemma_grow(before, movelist@, i as int, n0 as int, n as int, done, p3);
        if apart {
            assert forall|j: int| n0 <= j < n implies stage(#[trigger] movelist@[j]) == 5 by {
                lemma_quiet_stage(b, movelist@[j]);
                assert(p3(movelist@[j]));
            }
            assert(distinct_in(movelist@, n0 as int, n as int));
            lemma_distinct_grow(before, movelist@, i as int, n0 as int, n as int, stage, 5);
        }
    }
    let ghost done = |m: u16| done(m) || p3(m);
    let bishopq = (board.pieceboards[side + 4] | board.pieceboards[side + 2]) & !mm2;
    let ghost before = movelist@;
    let n0 = n;
    n = emit_piece_moves(tables, movelist, n, bishopq & mm3, 2, occ, moveable & mm3 & notfoe, 0);
    let ghost p4 = |m: u16| listed(m, bishopq & mm3, 2, occ, moveable & mm3 & notfoe, 0);
    proof {
        lemma_keep_from(before, movelist@, i as int, n0 as int, n as int, all, p4);
        lemma_grow(before, movelist@, i as int, n0 as int, n as int, done, p4);
        if apart {
            assert forall|j: int| n0 <= j < n implies stage(#[trigger] movelist@[j]) == 6 by {
                lemma_quiet_stage(b, movelist@[j]);
                assert(p4(movelist@[j]));
            }
            assert(distinct_in(movelist@, n0 as int, n as int));
            lemma_distinct_grow(before, movelist@, i as int, n0 as int, n as int, stage, 6);
        }
    }
    let ghost done = |m: u16| done(m) || p4(m);
    let ghost before = movelist@;
    let n0 = n;
    n = emit_piece_moves(tables, movelist, n, bishopq & !mm3, 2, occ, moveable & notfoe, 0);
    let ghost p5 = |m: u16| listed(m, bishopq & !mm3, 2, occ, moveable & notfoe, 0);
    proof {
        lemma_keep_from(before, movelist@, i as int, n0 as int, n as int, all, p5);
        lemma_grow(before, movelist@, i as int, n0 as int, n as int, done, p5);
        if apart {
            assert forall|j: int| n0 <= j < n implies stage(#[trigger] movelist@[j]) == 7 by {
                lemma_quiet_stage(b, movelist@[j]);
                assert(p5(movelist@[j]));
            }
            assert(distinct_in(movelist@, n0 as int, n as int));
            lemma_distinct_grow(before, movelist@, i as int, n0 as int, n as int, stage, 7);
        }
    }
    let ghost done = |m: u16| done(m) || p5(m);
    // pawn pushes
    let white = raw_side == 0;
    let pawnsforward = board.pieceboards[side] & !mm3;
    let promoterow: u64 = if white { 0xFF00 } else { 0xFF000000000000 };
    let pushrow: u64 = if white { 0xFF000000000000 } else { 0xFF00 };
    let mm1 = board.movemasks[1];
    let ghost before = movelist@;
    let n0 = n;
    n = emit_pushes(movelist, n, pawnsforward & !mm2, white, false, occ, mm1, mm2, promoterow, pushrow);
    let ghost p6 = |m: u16| push_shaped(m, pawnsforward & !mm2, white, false, occ, mm1, mm2, promoterow, pushrow);
    proof {
        lemma_keep_from(before, movelist@, i as int, n0 as int, n as int, all, p6);
        lemma_grow(before, movelist@, i as int, n0 as int, n as int, done, p6);
        if apart {
            assert forall|j: int| n0 <= j < n implies stage(#[trigger] movelist@[j]) == 8 by {
                lemma_quiet_stage(b, movelist@[j]);
                assert(p6(movelist@[j]));
            }
            assert(distinct_in(movelist@, n0 as int, n as int));
            lemma_distinct_grow(before, movelist@, i as int, n0 as int, n as int, stage, 8);
        }
    }
    let ghost done = |m: u16| done(m) || p6(m);
    let ghost before = movelist@;
    let n0 = n;
    n = emit_pushes(movelist, n, pawnsforward & mm2, white, true, occ, mm1, mm2, promoterow, pushrow);
    let ghost p7 = |m: u16| push_shaped(m, pawnsforward & mm2, white, true, occ, mm1, mm2, promoterow, pushrow);
    proof {
        lemma_keep_from(before, movelist@, i as int, n0 as int, n as int, all, p7);
        lemma_grow(before, movelist@, i as int, n0 as int, n as int, done, p7);
        if apart {
            assert forall|j: int| n0 <= j < n implies stage(#[trigger] movelist@[j]) == 9 by {
                lemma_quiet_stage(b, movelist@[j]);
                assert(p7(movelist@[j]));
            }
            assert(distinct_in(movelist@, n0 as int, n as int));
            lemma_distinct_grow(before, movelist@, i as int, n0 as int, n as int, stage, 9);
        }
        if n < movelist@.len() {
            assert forall|m: u16| #[trigger] quiet_listed(b, m) implies in_list(movelist@, i as int, n as int, m) by {
                assert(done(m) || p7(m));
            }
        }
    }
    n
}

/// `lemma_keep` for a list whose condition holds from index `i` on.
proof fn lemma_keep_from(
    before: Seq<u16>,
    after: Seq<u16>,
    i: int,
    n0: int,
    n1: int,
    all: spec_fn(u16) -> bool,
    part: spec_fn(u16) -> bool,
)
    requires
        0 <= i,
        forall|j: int| i <= j < n0 ==> all(#[trigger] before[j]),
        forall|j: int| 0 <= j < n0 ==> after[j] == before[j],
        forall|j: int| n0 <= j < n1 ==> part(#[trigger] after[j]),
        forall|m: u16| #[trigger] part(m) ==> all(m),
    ensures
        forall|j: int| i <= j < n1 ==> all(#[trigger] after[j]),
{
    assert forall|j: int| i <= j < n1 implies all(#[trigger] after[j]) by {
        if j < n0 {
            assert(after[j] == before[j]);
            assert(all(before[j]));
        } else {
            assert(part(after[j]));
        }
    }
}

/// The side to move of `a` has no move that `generate_moves` lists, once the masks are set.
pub open spec fn no_moves(a: Board) -> bool {
    forall|b: Board, m: u16| refreshed(a, b) ==> !#[trigger] move_listed(b, m)
}

/// The empty move (a8 to a8, no flags) is never listed on a board whose masks `refresh` set.
pub proof fn lemma_empty_move_unlisted(a: Board, b: Board)
    requires
        refreshed(a, b),
    ensures
        !move_listed(b, 0),
{
    crate::moves::lemma_u16_fields(0, 0);
    let occ = b.occupancies[2];
    crate::geometry::lemma_not_own_square(0, occ);
    let mm = b.movemasks;
    crate::bits::lemma_bit_and(king_bb(king_square(a)) & !a.occupancies[side_index(a)], !enemy_king_ban(a), 0);
    crate::bits::lemma_bit_and(king_bb(king_square(a)), !a.occupancies[side_index(a)], 0);
    crate::bits::lemma_bit_and(king_room(a), !refresh_ban(a), 0);
    crate::bits::lemma_bit_and(mm[4], !occ, 0);
    crate::bits::lemma_bit_and(mm[4], foe_occ(b), 0);
    crate::bits::lemma_bit_zero(0);
    crate::bits::lemma_bit_and(knight_bb(0), moveable(b) & !foe_occ(b), 0);
    crate::bits::lemma_bit_and(rook_bb(0, occ), moveable(b) & !foe_occ(b), 0);
    crate::bits::lemma_bit_and(rook_bb(0, occ), moveable(b) & mm[2] & !foe_occ(b), 0);
    crate::bits::lemma_bit_and(bishop_bb(0, occ), moveable(b) & !foe_occ(b), 0);
    crate::bits::lemma_bit_and(bishop_bb(0, occ), moveable(b) & mm[3] & !foe_occ(b), 0);
    lemma_capture_or_quiet(b, 0);
    assert(!capture_listed(b, 0));
    assert(!shaped(0, king_square(b), mm[4] & !occ, 0));
    assert(!castle_listed(b, 0));
    assert(!quiet_listed(b, 0));
}

/// A move that `generate_moves` lists: a capture or a quiet move.
pub open spec fn move_listed(b: Board, m: u16) -> bool {
    capture_listed(b, m) || quiet_listed(b, m)
}

/// The first `c` entries of `list` are captures of `b` and the entries from `c` to `n` are
/// quiet moves of `b`.
pub open spec fn captures_first(b: Board, list: Seq<u16>, c: int, n: int) -> bool {
    &&& forall|j: int| 0 <= j < c ==> capture_listed(b, #[trigger] list[j])
    &&& forall|j: int| c <= j < n ==> quiet_listed(b, #[trigger] list[j])
}

/// Sets the masks with `refresh` and lists the captures, then the quiet moves, of the side
/// to move; returns their number. When the list did not fill up, it holds every move that
/// `move_listed` describes.
pub fn generate_moves(tables: &AttackTables, board: &mut Board, movelist: &mut [u16]) -> (n: usize)
    requires
        tables.wf(),
        kings_present(*old(board)),
    ensures
        refreshed(*old(board), *final(board)),
        final(movelist)@.len() == old(movelist)@.len(),
        n <= final(movelist)@.len(),
        forall|j: int| 0 <= j < n ==> move_listed(*final(board), #[trigger] final(movelist)@[j]),
        forall|j: int| n <= j < final(movelist)@.len() ==> final(movelist)@[j] == old(movelist)@[j],
        exists|c: int|
            0 <= c <= n && #[trigger] captures_first(*final(board), final(movelist)@, c, n as int),
        n < final(movelist)@.len() ==> forall|m: u16|
            #[trigger] move_listed(*final(board), m) ==> in_list(final(movelist)@, 0, n as int, m),
        pieces_apart(*old(board)) ==> distinct_in(final(movelist)@, 0, n as int),
{
    let c = generate_captures(tables, board, movelist);
    let ghost before = movelist@;
    let ghost b = *board;
    let n = generate_quiets(tables, board, movelist, c);
    proof {
        assert(captures_first(*board, movelist@, c as int, n as int)) by {
            assert forall|j: int| 0 <= j < c implies capture_listed(*board, #[trigger] movelist@[j]) by {
                assert(movelist@[j] == before[j]);
            }
        }
        assert forall|j: int| 0 <= j < n implies move_listed(*board, #[trigger] movelist@[j]) by {
            if j < c {
                assert(movelist@[j] == before[j]);
            }
        }
        lemma_grow(
            before,
            movelist@,
            0,
            c as int,
            n as int,
            |m: u16| capture_listed(b, m),
            |m: u16| quiet_listed(b, m),
        );
        if n < movelist@.len() {
            assert forall|m: u16| #[trigger] move_listed(*board, m) implies in_list(movelist@, 0, n as int, m) by {
                assert(capture_listed(b, m) || quiet_listed(b, m));
            }
        }
        if pieces_apart(b) {
            let stage = |m: u16| if capture_listed(b, m) { 0int } else { 1int };
            assert forall|j: int| 0 <= j < c implies stage(#[trigger] before[j]) < 1 by {}
            assert forall|j: int| c <= j < n implies stage(#[trigger] movelist@[j]) == 1 by {
                lemma_capture_or_quiet(b, movelist@[j]);
            }
            lemma_distinct_grow(before, movelist@, 0, c as int, n as int, stage, 1);
        }
    }
    n
}

/// Whether both kings stand on the board and a side is to move.
pub fn kings_present_exec(board: &Board) -> (r: bool)
    ensures
        r == kings_present(*board),
{
    if board.side == Some(0) {
        board.pieceboards[5] != 0 && board.pieceboards[11] != 0
    } else if board.side == Some(1) {
        board.pieceboards[11] != 0 && board.pieceboards[5] != 0
    } else {
        false
    }
}

} // verus!
