//! The board: twelve piece bitboards, occupancies, move masks, side to move,
//! en passant square, castling rights and hash key; and the questions asked of it.
use vstd::prelude::*;
use crate::bits::{lemma_and_comm, lemma_or_zero, has_bit, single, lemma_bit_set, lemma_bit_pop, lemma_and_single};
use crate::geometry::{pawn_bb, knight_bb, king_bb, rook_bb, bishop_bb};
use crate::piececonstants::{AttackTables, get_bishop_attacks, get_rook_attacks};
use crate::movegen::{generate_moves, kings_present, kings_present_exec, no_moves, move_listed, refreshed, in_list, pieces_apart, distinct_in, refresh_ep, refresh_ban, refresh_checkmask, refresh_rook_pins, refresh_bishop_pins, refresh_king_moves};
use crate::tally::{range_sum, list_sum, lemma_list_sum_range, lemma_list_sum_one, lemma_range_sum_mono, lemma_range_sum_ext};
use crate::moves::{move_ok_exec, next_position, position_after, move_ok};

verus! {

/// Mask of the transposition-table index taken from a hash key.
pub const TTABLEMASK: usize = 1048575;

/// Squares off the h-file.
pub const NOT_H_FILE: u64 = 9187201950435737471;

/// Squares off the a-file.
pub const NOT_A_FILE: u64 = 18374403900871474942;

#[derive(Copy, Clone)]
pub struct Board {
    /// [P, N, B, R, Q, K, p, n, b, r, q, k]
    pub pieceboards: [u64; 12],
    /// [white, black, all]
    pub occupancies: [u64; 3],
    /// [attacked by the enemy, check mask, rook pins, bishop pins, king moves]
    pub movemasks: [u64; 5],
    /// Side to move: 0 white, 1 black, `None` before a position is set up.
    pub side: Option<u8>,
    /// The en passant target square as a bitboard, 0 when there is none.
    pub enpassant: u64,
    /// Castling rights: 1 white king side, 2 white queen side, 4 black king side, 8 black queen side.
    pub castle: u8,
    /// Hash key of the position.
    pub key: u64,
}

/// The board with no pieces, no side to move, no rights and key 0.
pub open spec fn is_empty_board(b: Board) -> bool {
    &&& forall|i: int| 0 <= i < 12 ==> #[trigger] b.pieceboards[i] == 0
    &&& forall|i: int| 0 <= i < 3 ==> #[trigger] b.occupancies[i] == 0
    &&& forall|i: int| 0 <= i < 5 ==> #[trigger] b.movemasks[i] == 0
    &&& b.side is None
    &&& b.enpassant == 0
    &&& b.castle == 0
    &&& b.key == 0
}

impl Default for Board {
    fn default() -> (b: Board)
        ensures
            is_empty_board(b),
    {
        Board {
            pieceboards: [0; 12],
            occupancies: [0; 3],
            movemasks: [0; 5],
            side: None,
            enpassant: 0,
            castle: 0,
            key: 0,
        }
    }
}

/// Index of the side to move in [white, black]: 1 for black, 0 otherwise.
pub open spec fn side_index(b: Board) -> int {
    if b.side == Some(1u8) {
        1
    } else {
        0
    }
}

/// Index of the first enemy piece bitboard: 6 when white is to move, 0 otherwise.
pub open spec fn enemy_base(b: Board) -> int {
    if b.side == Some(0u8) {
        6
    } else {
        0
    }
}

/// The white pieces together.
pub open spec fn white_union(pb: [u64; 12]) -> u64 {
    pb[0] | pb[1] | pb[2] | pb[3] | pb[4] | pb[5]
}

/// The black pieces together.
pub open spec fn black_union(pb: [u64; 12]) -> u64 {
    pb[6] | pb[7] | pb[8] | pb[9] | pb[10] | pb[11]
}

impl Board {
    /// The occupancies agree with the piece bitboards, no square holds two pieces, and a
    /// side is to move.
    pub open spec fn wf(&self) -> bool {
        &&& forall|i: int, j: int|
            0 <= i < j < 12 ==> #[trigger] self.pieceboards[i] & #[trigger] self.pieceboards[j] == 0
        &&& self.occupancies[0] == white_union(self.pieceboards)
        &&& self.occupancies[1] == black_union(self.pieceboards)
        &&& self.occupancies[2] == self.occupancies[0] | self.occupancies[1]
        &&& (self.side == Some(0u8) || self.side == Some(1u8))
    }
}

/// The pieces of color `c` (0 white, 1 black) that attack square `sq` when `occ` holds the
/// occupied squares, kings included or not.
pub open spec fn attackers(b: Board, sq: int, c: int, occ: u64, with_king: bool) -> u64 {
    let base = 6 * c;
    (pawn_bb(1 - c, sq) & b.pieceboards[base]) | (knight_bb(sq) & b.pieceboards[base + 1]) | (if with_king {
        king_bb(sq) & b.pieceboards[base + 5]
    } else {
        0u64
    }) | (bishop_bb(sq, occ) & (b.pieceboards[base + 2] | b.pieceboards[base + 4])) | (rook_bb(
        sq,
        occ,
    ) & (b.pieceboards[base + 3] | b.pieceboards[base + 4]))
}

/// Index of the lowest square of `bb`, 64 when empty.
pub open spec fn lowest_square(bb: u64) -> int {
    crate::bits::lowest(bb) as int
}

/// The pieces of `b` found on `sq` among `pieceboards[lo..lo+6]`: the first one.
pub open spec fn first_piece_from(b: Board, lo: int, sq: int, r: int) -> bool {
    &&& lo <= r < lo + 6
    &&& has_bit(b.pieceboards[r], sq as u64)
    &&& forall|j: int| lo <= j < r ==> !has_bit(#[trigger] b.pieceboards[j], sq as u64)
}

/// Some piece of `pieceboards[lo..lo+6]` stands on `sq`.
pub open spec fn some_piece_from(b: Board, lo: int, sq: int) -> bool {
    exists|j: int| lo <= j < lo + 6 && has_bit(#[trigger] b.pieceboards[j], sq as u64)
}

/// Number of indices below `n` at which the piece bitboards of `a` and `b` differ.
pub open spec fn count_differences(a: Board, b: Board, n: int) -> int
    decreases n,
{
    if n <= 0 {
        0
    } else {
        count_differences(a, b, n - 1) + (if a.pieceboards[n - 1] != b.pieceboards[n - 1] {
            1int
        } else {
            0
        })
    }
}

impl Board {
    /// Whether `square` is attacked by the side to move.
    pub fn is_square_attacked(&self, tables: &AttackTables, square: usize) -> (attacked: bool)
        requires
            tables.wf(),
            square < 64,
            self.side.is_some(),
        ensures
            attacked == (attackers(
                *self,
                square as int,
                if self.side.unwrap() != 0 { 1 } else { 0 },
                self.occupancies[2],
                true,
            ) != 0),
    {
        let side = self.side.unwrap() != 0;
        let base = if side { 6usize } else { 0usize };
        let pawn_side = if side { 0usize } else { 1usize };
        let attacked = (tables.pawn[pawn_side][square] & self.pieceboards[base]) | (
        tables.knight[square] & self.pieceboards[base + 1]) | (tables.king[square]
            & self.pieceboards[base + 5]) | (get_bishop_attacks(
            tables,
            square,
            self.occupancies[2],
        ) & (self.pieceboards[base + 2] | self.pieceboards[base + 4])) | (get_rook_attacks(
            tables,
            square,
            self.occupancies[2],
        ) & (self.pieceboards[base + 3] | self.pieceboards[base + 4]));
        return attacked != 0;
    }

    /// The bitboard of the squares that `is_square_attacked` reports, square by square: the
    /// board that the attack display shows.
    pub fn attack_board(&self, tables: &AttackTables) -> (board: u64)
        requires
            tables.wf(),
            self.side.is_some(),
        ensures
            forall|t: u64|
                t < 64 ==> #[trigger] has_bit(board, t) == (attackers(
                    *self,
                    t as int,
                    if self.side.unwrap() != 0 { 1 } else { 0 },
                    self.occupancies[2],
                    true,
                ) != 0),
    {
        let mut board: u64 = 0;
        let ghost c: int = if self.side.unwrap() != 0 { 1 } else { 0 };
        proof {
            assert forall|t: u64| t < 64 implies !#[trigger] has_bit(board, t) by {
                crate::bits::lemma_bit_zero(t);
            }
        }
        for square in 0..64usize
            invariant
                tables.wf(),
                self.side.is_some(),
                c == (if self.side.unwrap() != 0 { 1int } else { 0int }),
                forall|t: u64|
                    t < 64 ==> #[trigger] has_bit(board, t) == (t < square && attackers(
                        *self,
                        t as int,
                        c,
                        self.occupancies[2],
                        true,
                    ) != 0),
        {
            let ghost before = board;
            if self.is_square_attacked(tables, square) {
                board.set_bit(square);
            }
            proof {
                assert forall|t: u64| t < 64 implies #[trigger] has_bit(board, t) == (t < square + 1
                    && attackers(*self, t as int, c, self.occupancies[2], true) != 0) by {
                    lemma_bit_set(before, square as u64, t);
                }
            }
        }
        board
    }

    /// Whether the next board differs from this one in at most one piece kind and not in
    /// the pawns: a position reachable again by reversing moves.
    pub fn is_repeat(&self, next: &Board) -> (repeat: bool)
        ensures
            repeat == (self.pieceboards[0] == next.pieceboards[0] && self.pieceboards[6]
                == next.pieceboards[6] && count_differences(*self, *next, 12) < 2),
    {
        let mut differences: usize = 0;
        for i in 0..12usize
            invariant
                differences == count_differences(*self, *next, i as int),
                differences <= i,
                i > 0 ==> self.pieceboards[0] == next.pieceboards[0],
                i > 6 ==> self.pieceboards[6] == next.pieceboards[6],
        {
            if self.pieceboards[i] != next.pieceboards[i] {
                if i == 0 || i == 6 {
                    return false;
                }
                differences += 1;
            }
        }
        return differences < 2;
    }

    /// Whether the king of the side to move is attacked by an enemy pawn, knight or slider.
    pub fn is_king_attacked(&self, tables: &AttackTables) -> (attacked: bool)
        requires
            tables.wf(),
            self.side.is_some(),
            self.pieceboards[if self.side == Some(0u8) { 5int } else { 11int }] != 0,
        ensures
            attacked == (attackers(
                *self,
                lowest_square(
                    self.pieceboards[if self.side == Some(0u8) { 5int } else { 11int }],
                ),
                if self.side == Some(0u8) { 1 } else { 0 },
                self.occupancies[2],
                false,
            ) != 0),
    {
        let side: bool = self.side.unwrap() == 0;
        let base = if side { 6usize } else { 0usize };
        let own_king = if side { 5usize } else { 11usize };
        let pawn_side = if side { 0usize } else { 1usize };
        proof {
            crate::bits::lemma_lowest(self.pieceboards[own_king as int]);
        }
        let square = self.pieceboards[own_king].trailing_zeros() as usize;
        let attacked = (tables.pawn[pawn_side][square] & self.pieceboards[base]) | (
        tables.knight[square] & self.pieceboards[base + 1]) | (get_bishop_attacks(
            tables,
            square,
            self.occupancies[2],
        ) & (self.pieceboards[base + 2] | self.pieceboards[base + 4])) | (get_rook_attacks(
            tables,
            square,
            self.occupancies[2],
        ) & (self.pieceboards[base + 3] | self.pieceboards[base + 4]));
        proof {
            let a = tables.pawn[pawn_side as int][square as int] & self.pieceboards[base as int];
            let k = tables.knight[square as int] & self.pieceboards[base + 1];
            lemma_or_zero(a | k);
        }
        return attacked != 0;
    }

    /// The piece of the side to move standing on `square`.
    pub fn get_attacker(&self, square: usize) -> (piece: usize)
        requires
            square < 64,
            some_piece_from(*self, 6 * side_index(*self), square as int),
        ensures
            first_piece_from(*self, 6 * side_index(*self), square as int, piece as int),
    {
        let squareboard = 1u64 << (square as u64);
        let raw_side = if self.side == Some(1) { 6usize } else { 0usize };
        for i in 0..6usize
            invariant
                raw_side == 6 * side_index(*self),
                square < 64,
                squareboard == single(square as u64),
                some_piece_from(*self, raw_side as int, square as int),
                forall|j: int|
                    raw_side <= j < raw_side + i ==> !has_bit(
                        #[trigger] self.pieceboards[j],
                        square as u64,
                    ),
        {
            proof {
                lemma_and_single(self.pieceboards[i + raw_side], square as u64);
                lemma_and_comm(squareboard, self.pieceboards[i + raw_side]);
            }
            if squareboard & self.pieceboards[i + raw_side] != 0 {
                return i + raw_side;
            }
        }
        proof {
            let j = choose|j: int|
                raw_side <= j < raw_side + 6 && has_bit(#[trigger] self.pieceboards[j], square as u64);
            assert(!has_bit(self.pieceboards[j], square as u64));
        }
        0
    }

    /// The enemy piece on `square`, or `None` when the square is empty.
    pub fn get_target(&self, square: usize) -> (target: Option<usize>)
        requires
            square < 64,
            has_bit(self.occupancies[2], square as u64) ==> some_piece_from(
                *self,
                enemy_base(*self),
                square as int,
            ),
        ensures
            !has_bit(self.occupancies[2], square as u64) ==> target is None,
            has_bit(self.occupancies[2], square as u64) ==> (target matches Some(t) && first_piece_from(
                *self,
                enemy_base(*self),
                square as int,
                t as int,
            )),
    {
        let squareboard = 1u64 << (square as u64);
        let enemy_side = if self.side == Some(0) { 6usize } else { 0usize };
        proof {
            lemma_and_single(self.occupancies[2], square as u64);
            lemma_and_comm(squareboard, self.occupancies[2]);
        }
        if squareboard & self.occupancies[2] == 0 {
            None
        } else {
            for i in 0..6usize
                invariant
                    square < 64,
                    squareboard == single(square as u64),
                    enemy_side == enemy_base(*self),
                    has_bit(self.occupancies[2], square as u64),
                    some_piece_from(*self, enemy_side as int, square as int),
                    forall|j: int|
                        enemy_side <= j < enemy_side + i ==> !has_bit(
                            #[trigger] self.pieceboards[j],
                            square as u64,
                        ),
            {
                proof {
                    lemma_and_single(self.pieceboards[i + enemy_side], square as u64);
                    lemma_and_comm(squareboard, self.pieceboards[i + enemy_side]);
                }
                if squareboard & self.pieceboards[i + enemy_side] != 0 {
                    return Some(i + enemy_side);
                }
            }
            proof {
                let j = choose|j: int|
                    enemy_side <= j < enemy_side + 6 && has_bit(
                        #[trigger] self.pieceboards[j],
                        square as u64,
                    );
                assert(!has_bit(self.pieceboards[j], square as u64));
            }
            None
        }
    }

    /// The kind (0 pawn .. 5 king) of the piece of either color on `square`.
    pub fn piece_on(&self, square: usize) -> (kind: usize)
        requires
            square < 64,
            exists|j: int|
                0 <= j < 6 && has_bit(
                    #[trigger] (self.pieceboards[j] | self.pieceboards[j + 6]),
                    square as u64,
                ),
        ensures
            kind < 6,
            has_bit(self.pieceboards[kind as int] | self.pieceboards[kind + 6], square as u64),
            forall|j: int|
                0 <= j < kind ==> !has_bit(
                    #[trigger] (self.pieceboards[j] | self.pieceboards[j + 6]),
                    square as u64,
                ),
    {
        let squareboard = 1u64 << (square as u64);
        for i in 0..6usize
            invariant
                square < 64,
                squareboard == single(square as u64),
                exists|j: int|
                    0 <= j < 6 && has_bit(
                        #[trigger] (self.pieceboards[j] | self.pieceboards[j + 6]),
                        square as u64,
                    ),
                forall|j: int|
                    0 <= j < i ==> !has_bit(
                        #[trigger] (self.pieceboards[j] | self.pieceboards[j + 6]),
                        square as u64,
                    ),
        {
            let both = self.pieceboards[i + 6] | self.pieceboards[i];
            proof {
                lemma_and_single(both, square as u64);
                lemma_and_comm(squareboard, both);
                lemma_and_comm(self.pieceboards[i + 6], self.pieceboards[i as int]);
                lemma_and_single(self.pieceboards[i as int] | self.pieceboards[i + 6], square as u64);
            }
            if squareboard & both != 0 {
                return i;
            }
        }
        proof {
            let j = choose|j: int|
                0 <= j < 6 && has_bit(
                    #[trigger] (self.pieceboards[j] | self.pieceboards[j + 6]),
                    square as u64,
                );
            assert(!has_bit(self.pieceboards[j] | self.pieceboards[j + 6], square as u64));
        }
        0
    }

    /// The transposition-table index of this position.
    pub fn hash(&self) -> (index: usize)
        ensures
            index == (self.key as usize) & TTABLEMASK,
            index <= TTABLEMASK,
    {
        let k = self.key as usize;
        let index = k & TTABLEMASK;
        proof {
            crate::bits::lemma_usize_bits(k, 0);
        }
        index
    }
}

/// Bit operations on a bitboard.
pub trait BitBoard {
    fn left(&self) -> u64;

    fn right(&self) -> u64;

    fn get_bit(&self, index: usize) -> usize
        requires
            index < 64,
    ;

    fn set_bit(&mut self, square: usize)
        requires
            square < 64,
    ;

    fn pop_bit(&mut self, square: usize)
        requires
            square < 64,
    ;
}

impl BitBoard for u64 {
    /// Every square moved one file toward the a-file; squares on the a-file drop out.
    fn left(&self) -> (r: u64)
        ensures
            r == (*self >> 1u64) & NOT_H_FILE,
    {
        (*self >> 1) & NOT_H_FILE
    }

    /// Every square moved one file toward the h-file; squares on the h-file drop out.
    fn right(&self) -> (r: u64)
        ensures
            r == (*self << 1u64) & NOT_A_FILE,
    {
        (*self << 1) & NOT_A_FILE
    }

    /// 1 when `index` is set, 0 otherwise.
    fn get_bit(&self, index: usize) -> (r: usize)
        ensures
            r == (if has_bit(*self, index as u64) { 1usize } else { 0usize }),
    {
        proof {
            lemma_and_single(*self, index as u64);
        }
        if (*self & (1u64 << (index as u64))) != 0 {
            1
        } else {
            0
        }
    }

    /// Sets `square`.
    fn set_bit(&mut self, square: usize)
        ensures
            *final(self) == *old(self) | single(square as u64),
    {
        *self = *self | (1u64 << (square as u64));
    }

    /// Clears `square`.
    fn pop_bit(&mut self, square: usize)
        ensures
            *final(self) == *old(self) & !single(square as u64),
    {
        *self = *self & !(1u64 << (square as u64));
    }
}

/// Whether the position at `ply` is drawn: fifty moves (`halfcount` at least 50) have passed
/// without an irreversible move, or it repeats one of the positions since the last
/// irreversible move, looking back at most `halfcount` plies.
pub fn is_draw(positionstack: &[Board], ply: usize, halfcount: usize) -> (draw: bool)
    requires
        ply < positionstack@.len(),
    ensures
        draw == (halfcount >= 50 || exists|i: int|
            ply - (if ply < halfcount { ply as int } else { halfcount as int }) <= i < ply
                && #[trigger] positionstack@[i].key == positionstack@[ply as int].key),
{
    if halfcount >= 50 {
        return true;
    }
    let depth = if ply < halfcount { ply } else { halfcount };
    let now = positionstack[ply].key;
    for i in ply - depth..ply
        invariant
            ply < positionstack@.len(),
            now == positionstack@[ply as int].key,
            depth == (if ply < halfcount { ply } else { halfcount }),
            forall|j: int| ply - depth <= j < i ==> #[trigger] positionstack@[j].key != now,
    {
        if positionstack[i].key == now {
            return true;
        }
    }
    return false;
}

/// A bound on a perft count: 256 moves at each of `d` plies.
pub open spec fn perft_cap(d: nat) -> nat
    decreases d,
{
    if d == 0 {
        1
    } else {
        256 * perft_cap((d - 1) as nat)
    }
}

proof fn lemma_perft_cap(d: nat)
    requires
        d <= 7,
    ensures
        1 <= perft_cap(d) <= 72057594037927936,
    decreases 7 - d,
{
    reveal_with_fuel(perft_cap, 8);
    if d < 7 {
        lemma_perft_cap(d + 1);
    }
}

/// The board that `refresh` makes of `a`.
pub open spec fn refreshed_of(a: Board) -> Board {
    choose|b: Board| refreshed(a, b)
}

/// `refresh` makes one board of `a`.
pub proof fn lemma_refreshed_of(a: Board, b: Board)
    requires
        refreshed(a, b),
    ensures
        refreshed_of(a) == b,
{
    let c = refreshed_of(a);
    assert(refreshed(a, c));
    assert(c.movemasks =~= b.movemasks);
}

/// Refreshing a refreshed board changes nothing: the masks depend only on the pieces and
/// the side, and the en passant target that survives once survives again.
pub proof fn lemma_refresh_again(a: Board)
    ensures
        refreshed_of(refreshed_of(a)) == refreshed_of(a),
{
    let r = Board {
        enpassant: refresh_ep(a),
        movemasks: [
            refresh_ban(a),
            refresh_checkmask(a),
            refresh_rook_pins(a),
            refresh_bishop_pins(a),
            refresh_king_moves(a),
        ],
        ..a
    };
    assert(refreshed(a, r));
    lemma_refreshed_of(a, r);
    assert(refresh_ban(r) == refresh_ban(a));
    assert(refresh_checkmask(r) == refresh_checkmask(a));
    assert(refresh_rook_pins(r) == refresh_rook_pins(a));
    assert(refresh_bishop_pins(r) == refresh_bishop_pins(a));
    assert(refresh_king_moves(r) == refresh_king_moves(a));
    assert(refresh_ep(r) == refresh_ep(a));
    assert(refreshed(r, r));
    lemma_refreshed_of(r, r);
}

/// The number of positions `depth - 1` plies below `a`, as `perft_test` counts them: 1 at
/// depth 1, none without both kings, otherwise the sum over the moves of the refreshed
/// board of the count below each move that can be played.
pub open spec fn perft_count(a: Board, depth: int) -> nat
    decreases depth, 65537int,
{
    if depth <= 1 {
        1
    } else if !kings_present(a) {
        0
    } else {
        perft_sum(refreshed_of(a), depth, 65536)
    }
}

/// The sum over the moves below `k` listed on `rb` of the count below each at `depth`.
pub open spec fn perft_sum(rb: Board, depth: int, k: int) -> nat
    decreases depth, k,
{
    if k <= 0 {
        0
    } else {
        let m = (k - 1) as u16;
        perft_sum(rb, depth, k - 1) + if move_listed(rb, m) && depth >= 2 {
            match position_after(rb, m) {
                Some(c) => perft_count(c, depth - 1),
                None => 0,
            }
        } else {
            0
        }
    }
}

/// The count below move `m` of the refreshed board `rb` at `depth`: that of the position
/// it leads to, one level down; none when it cannot be played.
pub open spec fn child_count(rb: Board, m: u16, depth: int) -> nat {
    match position_after(rb, m) {
        Some(c) => perft_count(c, depth - 1),
        None => 0,
    }
}

/// The number of moves listed on `rb`.
pub open spec fn listed_count(rb: Board) -> nat {
    range_sum(|m: u16| if move_listed(rb, m) { 1nat } else { 0nat }, 65536)
}

/// The tree of positions below `a` to `depth` is one that `perft_test` counts exactly: at
/// every position with both kings no square holds two pieces and fewer than 256 moves are
/// listed, down to the last level.
pub open spec fn tree_ok(a: Board, depth: int) -> bool
    decreases depth,
{
    ||| depth <= 1
    ||| !kings_present(a)
    ||| {
        &&& pieces_apart(a)
        &&& listed_count(refreshed_of(a)) < 256
        &&& forall|m: u16|
            #[trigger] move_listed(refreshed_of(a), m) && position_after(refreshed_of(a), m) is Some ==> tree_ok(
                position_after(refreshed_of(a), m)->0,
                depth - 1,
            )
    }
}

/// A list without repeats of moves listed on `rb` is no longer than the number of them.
pub proof fn lemma_list_within_count(l: Seq<u16>, n: int, rb: Board)
    requires
        0 <= n <= l.len(),
        distinct_in(l, 0, n),
        forall|j: int| 0 <= j < n ==> move_listed(rb, #[trigger] l[j]),
    ensures
        n <= listed_count(rb),
{
    let one = |x: u16| 1nat;
    lemma_list_sum_one(l, n);
    lemma_list_sum_range(l, n, one);
    let f1 = |x: u16| if in_list(l, 0, n, x) { one(x) } else { 0nat };
    let f2 = |x: u16| if move_listed(rb, x) { 1nat } else { 0nat };
    assert forall|x: u16| #[trigger] f1(x) <= f2(x) by {
        if in_list(l, 0, n, x) {
            let j = choose|j: int| 0 <= j < n && #[trigger] l[j] == x;
            assert(move_listed(rb, l[j]));
        }
    }
    lemma_range_sum_mono(f1, f2, 65536);
}

/// A list without repeats that holds exactly the moves listed on `rb` is as long as their
/// number.
pub proof fn lemma_list_is_count(l: Seq<u16>, n: int, rb: Board)
    requires
        0 <= n <= l.len(),
        distinct_in(l, 0, n),
        forall|j: int| 0 <= j < n ==> move_listed(rb, #[trigger] l[j]),
        forall|x: u16| #[trigger] move_listed(rb, x) ==> in_list(l, 0, n, x),
    ensures
        n == listed_count(rb),
{
    let one = |x: u16| 1nat;
    lemma_list_sum_one(l, n);
    lemma_list_sum_range(l, n, one);
    let f1 = |x: u16| if in_list(l, 0, n, x) { one(x) } else { 0nat };
    let f2 = |x: u16| if move_listed(rb, x) { 1nat } else { 0nat };
    assert forall|x: u16| #[trigger] f1(x) == f2(x) by {
        if in_list(l, 0, n, x) {
            let j = choose|j: int| 0 <= j < n && #[trigger] l[j] == x;
            assert(move_listed(rb, l[j]));
        }
    }
    lemma_range_sum_ext(f1, f2, 65536);
}

proof fn lemma_perft_sum(rb: Board, depth: int, k: int)
    requires
        depth >= 2,
        k <= 65536,
    ensures
        perft_sum(rb, depth, k) == range_sum(
            |m: u16| if move_listed(rb, m) { child_count(rb, m, depth) } else { 0nat },
            k,
        ),
    decreases k,
{
    if k > 0 {
        lemma_perft_sum(rb, depth, k - 1);
    }
}

/// The stacks of a perft search: a board and a 256-entry move list per ply, room for
/// `depth` more plies after `ply`.
pub open spec fn perft_stacks(ps: Seq<Board>, ms: Seq<Vec<u16>>, ply: int, depth: int) -> bool {
    &&& ps.len() == ms.len()
    &&& 0 <= ply
    &&& ply + depth <= ps.len()
    &&& forall|j: int| 0 <= j < ms.len() ==> (#[trigger] ms[j])@.len() == 256
}

/// Counts the positions `depth - 1` plies below `positionstack[ply]`: 1 at depth 1,
/// otherwise the sum over the generated moves of the count below the move. A move that
/// `make_move` cannot play and a position without both kings add nothing.
pub fn perft_test(
    tables: &AttackTables,
    positionstack: &mut Vec<Board>,
    movestack: &mut Vec<Vec<u16>>,
    ply: &mut usize,
    depth: usize,
) -> (count: u64)
    requires
        tables.wf(),
        1 <= depth <= 8,
        perft_stacks(old(positionstack)@, old(movestack)@, *old(ply) as int, depth as int),
    ensures
        depth == 1 ==> count == 1,
        depth >= 2 && !kings_present(old(positionstack)@[*old(ply) as int]) ==> count == 0,
        depth >= 2 && no_moves(old(positionstack)@[*old(ply) as int]) ==> count == 0,
        tree_ok(old(positionstack)@[*old(ply) as int], depth as int) ==> count == perft_count(
            old(positionstack)@[*old(ply) as int],
            depth as int,
        ),
        count <= perft_cap((depth - 1) as nat),
        *final(ply) == *old(ply),
        perft_stacks(final(positionstack)@, final(movestack)@, *old(ply) as int, depth as int),
        forall|j: int| 0 <= j < *old(ply) ==> final(positionstack)@[j] == old(positionstack)@[j],
        forall|j: int| 0 <= j < *old(ply) ==> final(movestack)@[j] == old(movestack)@[j],
    decreases depth, 1int,
{
    if depth == 1 {
        return 1;
    }
    let p = *ply;
    proof {
        lemma_perft_cap((depth - 2) as nat);
        lemma_perft_cap((depth - 1) as nat);
    }
    if !kings_present_exec(&positionstack[p]) {
        return 0;
    }
    let ghost ps0 = positionstack@;
    let ghost ms0 = movestack@;
    let index = {
        let list = &mut movestack[p];
        generate_moves(tables, &mut positionstack[p], list.as_mut_slice())
    };
    assert(forall|j: int| 0 <= j < p ==> positionstack@[j] == ps0[j]);
    assert(forall|j: int| 0 <= j < p ==> movestack@[j] == ms0[j]);
    proof {
        if no_moves(ps0[p as int]) && index > 0 {
            assert(move_listed(positionstack@[p as int], movestack@[p as int]@[0]));
        }
    }
    let ghost ps1 = positionstack@;
    let ghost ms1 = movestack@;
    let ghost cap = perft_cap((depth - 2) as nat);
    let ghost a = ps0[p as int];
    let ghost rb = positionstack@[p as int];
    let ghost l = movestack@[p as int]@;
    let ghost ok = tree_ok(a, depth as int);
    let ghost g = |x: u16| child_count(rb, x, depth as int);
    proof {
        lemma_refreshed_of(a, rb);
        if ok {
            lemma_list_within_count(l, index as int, rb);
            assert(index < 256);
        }
    }
    let mut count: u64 = 0;
    let mut m: usize = 0;
    while m < index
        invariant
            tables.wf(),
            2 <= depth <= 8,
            perft_stacks(positionstack@, movestack@, p as int, depth as int),
            index <= movestack@[p as int]@.len(),
            cap == perft_cap((depth - 2) as nat),
            1 <= cap,
            256 * cap <= 72057594037927936,
            m <= index,
            count <= m * cap,
            forall|j: int| 0 <= j <= p ==> positionstack@[j] == ps1[j],
            forall|j: int| 0 <= j <= p ==> movestack@[j] == ms1[j],
            rb == ps1[p as int],
            l == ms1[p as int]@,
            refreshed_of(a) == rb,
            kings_present(a),
            ok == tree_ok(a, depth as int),
            forall|j: int| 0 <= j < index ==> move_listed(rb, #[trigger] l[j]),
            g == (|x: u16| child_count(rb, x, depth as int)),
            ok ==> count == list_sum(l, m as int, g),
        decreases index - m,
    {
        let mv = movestack[p][m];
        proof {
            if ok {
                assert(move_listed(refreshed_of(a), mv));
            }
        }
        let r = perft_child(tables, positionstack, movestack, p, mv, depth);
        proof {
            assert(count + r <= (m + 1) * cap) by (nonlinear_arith)
                requires
                    count <= m * cap,
                    r <= cap,
            ;
            assert((m + 1) * cap <= 256 * cap) by (nonlinear_arith)
                requires
                    m + 1 <= 256,
            ;
        }
        count = count + r;
        m += 1;
    }
    proof {
        assert(index * cap <= 256 * cap) by (nonlinear_arith)
            requires
                index <= 256,
        ;
        if ok {
            lemma_list_sum_range(l, index as int, g);
            let f1 = |x: u16| if in_list(l, 0, index as int, x) { g(x) } else { 0nat };
            let f2 = |x: u16| if move_listed(rb, x) { child_count(rb, x, depth as int) } else { 0nat };
            assert forall|x: u16| #[trigger] f1(x) == f2(x) by {
                if in_list(l, 0, index as int, x) {
                    let j = choose|j: int| 0 <= j < index && #[trigger] l[j] == x;
                    assert(move_listed(rb, l[j]));
                }
            }
            lemma_range_sum_ext(f1, f2, 65536);
            lemma_perft_sum(rb, depth as int, 65536);
        }
    }
    count
}

/// The count below the position that `mv` leads to from `positionstack[p]`, searched at
/// `p + 1`; none when `make_move` cannot play `mv`.
fn perft_child(
    tables: &AttackTables,
    positionstack: &mut Vec<Board>,
    movestack: &mut Vec<Vec<u16>>,
    p: usize,
    mv: u16,
    depth: usize,
) -> (r: u64)
    requires
        tables.wf(),
        2 <= depth <= 9,
        perft_stacks(old(positionstack)@, old(movestack)@, p as int, depth as int),
    ensures
        r <= perft_cap((depth - 2) as nat),
        (position_after(old(positionstack)@[p as int], mv) is Some ==> tree_ok(
            position_after(old(positionstack)@[p as int], mv)->0,
            depth - 1,
        )) ==> r == child_count(old(positionstack)@[p as int], mv, depth as int),
        perft_stacks(final(positionstack)@, final(movestack)@, p as int, depth as int),
        forall|j: int| 0 <= j <= p ==> final(positionstack)@[j] == old(positionstack)@[j],
        forall|j: int| 0 <= j <= p ==> final(movestack)@[j] == old(movestack)@[j],
    decreases depth, 0int,
{
    let len = positionstack.len();
    assert(p + 1 < len);
    match next_position(&positionstack[p], mv) {
        Some(boardcopy) => {
            positionstack.set(p + 1, boardcopy);
            let mut q = p + 1;
            perft_test(tables, positionstack, movestack, &mut q, depth - 1)
        },
        None => 0,
    }
}

/// The count below each generated move: pairs of the move and the number of positions
/// `depth - 1` plies below it.
pub fn perft_div(
    tables: &AttackTables,
    positionstack: &mut Vec<Board>,
    movestack: &mut Vec<Vec<u16>>,
    ply: &mut usize,
    depth: usize,
) -> (counts: Vec<(u16, u64)>)
    requires
        tables.wf(),
        2 <= depth <= 9,
        perft_stacks(old(positionstack)@, old(movestack)@, *old(ply) as int, depth as int),
        kings_present(old(positionstack)@[*old(ply) as int]),
    ensures
        counts@.len() <= 256,
        forall|i: int| 0 <= i < counts@.len() ==> (#[trigger] counts@[i]).1 <= perft_cap((depth - 2) as nat),
        *final(ply) == *old(ply),
        counts@.len() == 0 <==> no_moves(old(positionstack)@[*old(ply) as int]),
        ({
            let a = old(positionstack)@[*old(ply) as int];
            let l = final(movestack)@[*old(ply) as int]@;
            &&& counts@.len() <= l.len()
            &&& forall|i: int| 0 <= i < counts@.len() ==> (#[trigger] counts@[i]).0 == l[i]
            &&& forall|i: int| 0 <= i < counts@.len() && !move_ok(refreshed_of(a), l[i]) ==> (#[trigger] counts@[i]).1 == 0
        }),
        ({
            let a = old(positionstack)@[*old(ply) as int];
            let l = final(movestack)@[*old(ply) as int]@;
            tree_ok(a, depth as int) ==> {
                &&& counts@.len() == listed_count(refreshed_of(a))
                &&& distinct_in(l, 0, counts@.len() as int)
                &&& forall|i: int|
                    0 <= i < counts@.len() ==> move_listed(refreshed_of(a), #[trigger] l[i]) && counts@[i].1
                        == child_count(refreshed_of(a), l[i], depth as int)
            }
        }),
{
    let p = *ply;
    let ghost b0 = positionstack@[p as int];
    let index = {
        let list = &mut movestack[p];
        generate_moves(tables, &mut positionstack[p], list.as_mut_slice())
    };
    proof {
        let b1 = positionstack@[p as int];
        let l = movestack@[p as int]@;
        if index > 0 {
            assert(move_listed(b1, l[0]));
            assert(!no_moves(b0));
        } else {
            assert forall|b: Board, x: u16| refreshed(b0, b) implies !#[trigger] move_listed(b, x) by {
                assert(b.movemasks =~= b1.movemasks);
                assert(b == b1);
                if move_listed(b, x) {
                    assert(in_list(l, 0, 0, x));
                }
            }
        }
    }
    let ghost ps1 = positionstack@;
    let ghost ms1 = movestack@;
    let ghost rb = positionstack@[p as int];
    let ghost l = movestack@[p as int]@;
    let ghost ok = tree_ok(b0, depth as int);
    proof {
        lemma_refreshed_of(b0, rb);
        if ok {
            lemma_list_within_count(l, index as int, rb);
            assert(index < 256);
            lemma_list_is_count(l, index as int, rb);
        }
    }
    let mut counts: Vec<(u16, u64)> = Vec::new();
    let mut m: usize = 0;
    while m < index
        invariant
            tables.wf(),
            2 <= depth <= 9,
            perft_stacks(positionstack@, movestack@, p as int, depth as int),
            index <= 256,
            m <= index,
            counts@.len() == m,
            forall|i: int| 0 <= i < counts@.len() ==> (#[trigger] counts@[i]).1 <= perft_cap((depth - 2) as nat),
            forall|j: int| 0 <= j <= p ==> positionstack@[j] == ps1[j],
            forall|j: int| 0 <= j <= p ==> movestack@[j] == ms1[j],
            rb == ps1[p as int],
            l == ms1[p as int]@,
            index <= l.len(),
            refreshed_of(b0) == rb,
            kings_present(b0),
            ok == tree_ok(b0, depth as int),
            forall|j: int| 0 <= j < index ==> move_listed(rb, #[trigger] l[j]),
            ok ==> forall|i: int| 0 <= i < m ==> #[trigger] counts@[i].1 == child_count(rb, l[i], depth as int),
            forall|i: int| 0 <= i < m ==> (#[trigger] counts@[i]).0 == l[i],
            forall|i: int| 0 <= i < m && !move_ok(rb, l[i]) ==> (#[trigger] counts@[i]).1 == 0,
        decreases index - m,
    {
        let mv = movestack[p][m];
        let boardcopy = positionstack[p];
        proof {
            if ok {
                assert(move_listed(refreshed_of(b0), mv));
            }
        }
        if move_ok_exec(&boardcopy, mv) {
            let r = perft_child(tables, positionstack, movestack, p, mv, depth);
            counts.push((mv, r));
        } else {
            proof {
                crate::moves::lemma_no_position_after(rb, mv);
            }
            counts.push((mv, 0));
        }
        m += 1;
    }
    counts
}

} // verus!
