//! Moves packed in 16 bits, and playing them on a board.
//!
//! Bits 0..6 hold the origin square, bits 6..12 the target square, bits 12..16 the
//! flags: 0 quiet, 1 double pawn push, 2 king-side castle, 3 queen-side castle,
//! 4 capture, 5 en passant capture, 8..11 promotion to knight, bishop, rook, queen,
//! 12..15 the same promotions with a capture.
use vstd::prelude::*;
use vstd::array::spec_array_update;
use crate::bits::{has_bit, single, lowest, lemma_lowest, lemma_bit_single, lemma_bit_xor};
use crate::engine::{Board, side_index, enemy_base, first_piece_from, some_piece_from};
use crate::zobrist::{position_key, pieces_keys, lemma_pieces_keys_toggle, lemma_pieces_keys_toggle2, lemma_toggle_forms, lemma_move_form, spec_piece_key, spec_castle_key, spec_ep_key, spec_side_key, piece_key, castle_key, ep_key, side_key};

verus! {

pub type Move = u16;

pub open spec fn spec_initial(m: u16) -> int {
    (m & 0x3Fu16) as int
}

pub open spec fn spec_final(m: u16) -> int {
    ((m & 0xFC0u16) >> 6u16) as int
}

pub open spec fn spec_extra(m: u16) -> int {
    ((m & 0xF000u16) >> 12u16) as int
}

pub trait MoveStuff {
    fn new(
        initial_square: u16,
        target_square: u16,
        capture: u16,
        promotion: u16,
        special1: u16,
        special2: u16,
    ) -> Move;

    fn get_initial(&self) -> u16;

    fn get_final(&self) -> u16;

    fn get_extra(&self) -> u16;

    fn to_uci(&self) -> String;
}

impl MoveStuff for Move {
    /// Packs a move; `special1` and `special2` are the two low flag bits.
    fn new(
        initial_square: u16,
        target_square: u16,
        capture: u16,
        promotion: u16,
        special1: u16,
        special2: u16,
    ) -> (m: Move)
        ensures
            m == initial_square | (target_square << 6u16) | (special2 << 12u16) | (special1
                << 13u16) | (capture << 14u16) | (promotion << 15u16),
    {
        initial_square | (target_square << 6u16) | (special2 << 12u16) | (special1 << 13u16) | (
        capture << 14u16) | (promotion << 15u16)
    }

    /// The origin square.
    fn get_initial(&self) -> (s: u16)
        ensures
            s == spec_initial(*self),
            s < 64,
    {
        let s = *self & 0x3F;
        proof {
            lemma_u16_fields(*self, 0);
        }
        s
    }

    /// The target square.
    fn get_final(&self) -> (s: u16)
        ensures
            s == spec_final(*self),
            s < 64,
    {
        let s = (*self & 0xFC0) >> 6;
        proof {
            lemma_u16_fields(*self, 0);
        }
        s
    }

    /// The four flag bits.
    fn get_extra(&self) -> (s: u16)
        ensures
            s == spec_extra(*self),
            s < 16,
    {
        let s = (*self & 0xF000) >> 12;
        proof {
            lemma_u16_fields(*self, 0);
        }
        s
    }

    /// The move in coordinate notation: origin and target squares as file letter and rank
    /// digit, then the promotion piece in lower case.
    fn to_uci(&self) -> (text: String)
        ensures
            text@ == uci_text(*self),
    {
        let init = self.get_initial() as usize;
        let fin = self.get_final() as usize;
        let mut text = String::new();
        text.append(file_str(init % 8));
        text.append(rank_str(init / 8));
        text.append(file_str(fin % 8));
        text.append(rank_str(fin / 8));
        if *self & 0x8000 != 0 {
            let extra = self.get_extra();
            proof {
                lemma_u16_fields(*self, extra);
            }
            text.append(promotion_str((extra & 3) as usize));
        }
        proof {
            assert(text@ =~= uci_text(*self));
        }
        text
    }
}

/// The fields of a packed move and of its four flag bits, as bit-vector facts.
pub proof fn lemma_u16_fields(m: u16, e: u16)
    by (bit_vector)
    ensures
        (m & 0x3Fu16) < 64,
        ((m & 0xFC0u16) >> 6u16) < 64,
        ((m & 0xF000u16) >> 12u16) < 16,
        (((m & 0xF000u16) >> 12u16) & 4u16 != 0) == (m & 0x4000u16 != 0),
        (((m & 0xF000u16) >> 12u16) & 8u16 != 0) == (m & 0x8000u16 != 0),
        (3u16 & ((m & 0xF000u16) >> 12u16)) == ((m & 0xF000u16) >> 12u16) % 4,
        (m & 0x8000u16 != 0) ==> ((m & 0xF000u16) >> 12u16) >= 8,
        (e & 3u16) < 4,
        (e & 3u16) == e % 4,
        e < 16 ==> 8 * ((e >> 3u16) & 1u16) + 4 * ((e >> 2u16) & 1u16) + 2 * ((e >> 1u16)
            & 1u16) + (e & 1u16) == e,
        ((e >> 3u16) & 1u16) <= 1,
        ((e >> 2u16) & 1u16) <= 1,
        ((e >> 1u16) & 1u16) <= 1,
        (e & 1u16) <= 1,
        e < 16 ==> (e & 4u16 == 0) == (e % 8 < 4),
        e < 16 ==> (e & 8u16 != 0) == (e >= 8),
        e < 16 ==> (e & 2u16 != 0) == (e % 4 >= 2),
        (m & 0x3Fu16) == (e & 0x3Fu16) && ((m & 0xFC0u16) >> 6u16) == ((e & 0xFC0u16) >> 6u16) && ((m
            & 0xF000u16) >> 12u16) == ((e & 0xF000u16) >> 12u16) ==> m == e,
        (0u16 & 0x3Fu16) == 0u16,
        ((0u16 & 0xFC0u16) >> 6u16) == 0u16,
        ((0u16 & 0xF000u16) >> 12u16) == 0u16,
{
}

/// A move is determined by its origin, its target and its flags.
pub proof fn lemma_move_fields_eq(m: u16, e: u16)
    requires
        spec_initial(m) == spec_initial(e),
        spec_final(m) == spec_final(e),
        spec_extra(m) == spec_extra(e),
    ensures
        m == e,
{
    lemma_u16_fields(m, e);
}

/// Packing a move and reading it back gives its squares and flags.
pub proof fn lemma_move_roundtrip(a: u16, t: u16, c: u16, p: u16, s1: u16, s2: u16)
    requires
        a < 64,
        t < 64,
        c <= 1,
        p <= 1,
        s1 <= 1,
        s2 <= 1,
    ensures
        ({
            let m = a | (t << 6u16) | (s2 << 12u16) | (s1 << 13u16) | (c << 14u16) | (p << 15u16);
            &&& spec_initial(m) == a
            &&& spec_final(m) == t
            &&& spec_extra(m) == 8 * p + 4 * c + 2 * s1 + s2
        }),
{
    let m = a | (t << 6u16) | (s2 << 12u16) | (s1 << 13u16) | (c << 14u16) | (p << 15u16);
    assert(a < 64 && t < 64 && c <= 1 && p <= 1 && s1 <= 1 && s2 <= 1 ==> (m & 0x3Fu16) == a
        && ((m & 0xFC0u16) >> 6u16) == t && ((m & 0xF000u16) >> 12u16) == 8 * p + 4 * c + 2 * s1
        + s2) by (bit_vector)
        requires
            m == a | (t << 6u16) | (s2 << 12u16) | (s1 << 13u16) | (c << 14u16) | (p << 15u16),
    ;
}

pub open spec fn first_piece(b: Board, lo: int, sq: int) -> int {
    choose|r: int| first_piece_from(b, lo, sq, r)
}

pub proof fn lemma_first_piece(b: Board, lo: int, sq: int, r: int)
    requires
        first_piece_from(b, lo, sq, r),
    ensures
        first_piece(b, lo, sq) == r,
{
    let c = first_piece(b, lo, sq);
    assert(first_piece_from(b, lo, sq, c));
    if c < r {
        assert(!has_bit(b.pieceboards[c], sq as u64));
    } else if r < c {
        assert(!has_bit(b.pieceboards[r], sq as u64));
    }
}

pub open spec fn is_capture(m: u16) -> bool {
    m & 0x4000u16 != 0
}

pub open spec fn is_promotion(m: u16) -> bool {
    m & 0x8000u16 != 0
}

/// Index (0 white, 1 black) of the side not to move when white is to move; 0 otherwise.
pub open spec fn enemy_index(b: Board) -> int {
    if b.side == Some(0u8) {
        1
    } else {
        0
    }
}

/// The side to move after `side`.
pub open spec fn next_side(side: Option<u8>) -> Option<u8> {
    match side {
        Some(0u8) => Some(1u8),
        Some(1u8) => Some(0u8),
        _ => None,
    }
}

/// What `make_move` needs to run: a piece of the side to move on the origin, an enemy piece
/// on an occupied target of a capture, and squares on the board for en passant, double
/// pushes and castling rooks.
pub open spec fn move_ok(b: Board, m: u16) -> bool {
    let init = spec_initial(m);
    let fin = spec_final(m);
    let extra = spec_extra(m);
    let rs = side_index(b);
    &&& some_piece_from(b, 6 * rs, init)
    &&& is_capture(m) && has_bit(b.occupancies[2], fin as u64) ==> some_piece_from(
        moved_piece(b, m),
        enemy_base(b),
        fin,
    )
    &&& (is_capture(m) && !has_bit(b.occupancies[2], fin as u64)) || (!is_capture(m) && extra == 1)
        ==> 0 <= fin + 8 - rs * 16 < 64
    &&& !is_capture(m) && extra == 2 ==> init + 3 < 64
    &&& !is_capture(m) && extra == 3 ==> init >= 4
}

/// `b` with the piece on the origin of `m` taken to its target.
pub open spec fn moved_piece(b: Board, m: u16) -> Board {
    let init = spec_initial(m);
    let fin = spec_final(m);
    let attacker = first_piece(b, 6 * side_index(b), init);
    Board {
        pieceboards: spec_array_update(
            b.pieceboards,
            attacker,
            (b.pieceboards[attacker] & !single(init as u64)) | single(fin as u64),
        ),
        ..b
    }
}

/// The hash key after the mover has moved, the en passant key is removed and the castling
/// rights are updated.
pub open spec fn key_after_rights(b: Board, m: u16) -> u64 {
    let init = spec_initial(m);
    let fin = spec_final(m);
    let attacker = first_piece(b, 6 * side_index(b), init);
    let key1 = b.key ^ (spec_piece_key(attacker, init) ^ spec_piece_key(attacker, fin));
    let key2 = if b.enpassant != 0 {
        key1 ^ spec_ep_key(lowest(b.enpassant) as int % 8)
    } else {
        key1
    };
    (key2 ^ spec_castle_key(b.castle as int)) ^ spec_castle_key(castle_after(b, m) as int)
}

pub open spec fn castle_after(b: Board, m: u16) -> u8 {
    (b.castle & spec_castling_rights_of(spec_initial(m))) & spec_castling_rights_of(spec_final(m))
}

/// Piece bitboards, occupancies, key and en passant square after the mover has moved and
/// a capture, double push or castle has been carried out.
pub open spec fn capture_stage(b: Board, m: u16) -> ([u64; 12], [u64; 3], u64, u64) {
    let init = spec_initial(m);
    let fin = spec_final(m);
    let extra = spec_extra(m);
    let rs = side_index(b);
    let er = enemy_index(b);
    let na = !single(init as u64);
    let eb = single(fin as u64);
    let pb1 = moved_piece(b, m).pieceboards;
    let occ1 = spec_array_update(b.occupancies, rs, (b.occupancies[rs] & na) | eb);
    let key3 = key_after_rights(b, m);
    if is_capture(m) {
        if has_bit(b.occupancies[2], fin as u64) {
            let target = first_piece(moved_piece(b, m), enemy_base(b), fin);
            (
                spec_array_update(pb1, target, pb1[target] & !eb),
                spec_array_update(occ1, er, occ1[er] & !eb),
                key3 ^ spec_piece_key(target, fin),
                0u64,
            )
        } else {
            let eps = fin + 8 - rs * 16;
            let epb = !single(eps as u64);
            (
                spec_array_update(pb1, er * 6, pb1[er * 6] & epb),
                spec_array_update(occ1, er, occ1[er] & epb),
                key3 ^ spec_piece_key(er * 6, eps),
                0u64,
            )
        }
    } else if extra == 1 {
        (pb1, occ1, key3 ^ spec_ep_key(fin % 8), single((fin + 8 - 16 * rs) as u64))
    } else if extra == 2 || extra == 3 {
        let rook = rs * 6 + 3;
        let from = if extra == 2 { init + 3 } else { init - 4 };
        let to = if extra == 2 { init + 1 } else { init - 1 };
        let nrs = !single(from as u64);
        let re = single(to as u64);
        (
            spec_array_update(pb1, rook, (pb1[rook] & nrs) | re),
            spec_array_update(occ1, rs, (occ1[rs] & nrs) | re),
            key3 ^ (spec_piece_key(rook, from) ^ spec_piece_key(rook, to)),
            0u64,
        )
    } else {
        (pb1, occ1, key3, 0u64)
    }
}

/// Piece bitboards and key after a promotion, if `m` is one.
pub open spec fn promotion_stage(b: Board, m: u16, pb2: [u64; 12], key4: u64) -> ([u64; 12], u64) {
    let fin = spec_final(m);
    let extra = spec_extra(m);
    let rs = side_index(b);
    let attacker = first_piece(b, 6 * rs, spec_initial(m));
    let eb = single(fin as u64);
    if is_promotion(m) {
        let piece = ((extra % 4) + 1) + rs * 6;
        let pa = spec_array_update(pb2, attacker, pb2[attacker] & !eb);
        (
            spec_array_update(pa, piece, pa[piece] | eb),
            key4 ^ (spec_piece_key(attacker, fin) ^ spec_piece_key(piece, fin)),
        )
    } else {
        (pb2, key4)
    }
}

/// The castling rights lost when a piece leaves or reaches square `sq`: the a8 rook's
/// (black queen side, 8), the e8 king's (both black rights, 12), the h8 rook's (black king
/// side, 4), the a1 rook's (white queen side, 2), the e1 king's (both white rights, 3) and the
/// h1 rook's (white king side, 1).
pub open spec fn rights_lost(sq: int) -> u8 {
    if sq == 0 {
        8
    } else if sq == 4 {
        12
    } else if sq == 7 {
        4
    } else if sq == 56 {
        2
    } else if sq == 60 {
        3
    } else if sq == 63 {
        1
    } else {
        0
    }
}

/// A move keeps exactly the castling rights that neither its origin nor its target takes
/// away: moving a king or rook from its home square, or capturing on a rook's home square,
/// clears that right, and no right is ever gained.
pub proof fn lemma_castling_rights_after_move(b: Board, m: u16)
    requires
        b.castle < 16,
    ensures
        after_move(b, m).castle == b.castle & !(rights_lost(spec_initial(m)) | rights_lost(spec_final(m))),
{
    let c = b.castle;
    let i = spec_initial(m);
    let f = spec_final(m);
    let li = rights_lost(i);
    let lf = rights_lost(f);
    assert(forall|sq: int| #[trigger] spec_castling_rights_of(sq) == (15u8 & !rights_lost(sq))) by {
        assert(7u8 == 15u8 & !8u8 && 3u8 == 15u8 & !12u8 && 11u8 == 15u8 & !4u8) by (bit_vector);
        assert(13u8 == 15u8 & !2u8 && 12u8 == 15u8 & !3u8 && 14u8 == 15u8 & !1u8) by (bit_vector);
        assert(15u8 == 15u8 & !0u8) by (bit_vector);
    }
    let ri = spec_castling_rights_of(i);
    let rf = spec_castling_rights_of(f);
    assert(ri == 15u8 & !li && rf == 15u8 & !lf);
    assert(c < 16 && ri == 15u8 & !li && rf == 15u8 & !lf ==> (c & ri) & rf == c & !(li | lf)) by (bit_vector);
}

/// The board after playing `m` on `b`.
pub open spec fn after_move(b: Board, m: u16) -> Board {
    let (pb2, occ2, key4, ep) = capture_stage(b, m);
    let (pb3, key5) = promotion_stage(b, m, pb2, key4);
    Board {
        pieceboards: pb3,
        occupancies: spec_array_update(occ2, 2, occ2[1] | occ2[0]),
        movemasks: b.movemasks,
        side: next_side(b.side),
        enpassant: ep,
        castle: castle_after(b, m),
        key: key5 ^ spec_side_key(),
    }
}

proof fn lemma_flags(m: u16)
    ensures
        (((m & 0xF000u16) >> 12u16) & 4u16 != 0) == is_capture(m),
        (((m & 0xF000u16) >> 12u16) & 8u16 != 0) == is_promotion(m),
        (3u16 & ((m & 0xF000u16) >> 12u16)) as int == spec_extra(m) % 4,
{
    lemma_u16_fields(m, 0);
}

/// Plays `movement` on `board`: moves the piece, removes a captured piece, moves the rook
/// of a castle, sets the en passant square of a double push, promotes, updates castling
/// rights, passes the move to the other side, and keeps the hash key up to date.
pub fn make_move(board: &mut Board, movement: &Move) 
    requires
        move_ok(*old(board), *movement),
    ensures
        *final(board) == after_move(*old(board), *movement),
{
    let ghost b = *board;
    let ghost m = *movement;
    let initial_square = movement.get_initial() as usize;
    let final_square = movement.get_final() as usize;
    let extra = movement.get_extra();
    proof {
        lemma_flags(m);
    }
    let capture = extra & 4 != 0;
    let promotion = extra & 8 != 0;
    let raw_side: usize = if board.side == Some(1) { 1 } else { 0 };
    let enemy_raw: usize = if board.side == Some(0) { 1 } else { 0 };
    let attacker = board.get_attacker(initial_square);
    proof {
        lemma_first_piece(b, 6 * side_index(b), initial_square as int, attacker as int);
    }
    let notattackboard = !(1u64 << (initial_square as u64));
    let endboard = 1u64 << (final_square as u64);
    board.pieceboards[attacker] = (board.pieceboards[attacker] & notattackboard) | endboard;
    board.occupancies[raw_side] = (board.occupancies[raw_side] & notattackboard) | endboard;
    board.key = board.key ^ (piece_key(attacker, initial_square) ^ piece_key(attacker, final_square));
    if board.enpassant != 0 {
        proof {
            crate::bits::lemma_lowest(board.enpassant);
        }
        board.key = board.key ^ ep_key((board.enpassant.trailing_zeros()) as usize % 8);
    }
    board.enpassant = 0;
    board.key = board.key ^ castle_key(board.castle);
    board.castle = board.castle & crate::piececonstants::castling_rights(initial_square);
    board.castle = board.castle & crate::piececonstants::castling_rights(final_square);
    board.key = board.key ^ castle_key(board.castle);
    if capture {
        proof {
            assert(board.pieceboards == moved_piece(b, m).pieceboards);
            assert(board.occupancies[2] == b.occupancies[2]);
        }
        match board.get_target(final_square) {
            Some(target) => {
                proof {
                    lemma_first_piece(moved_piece(b, m), enemy_base(b), final_square as int, target as int);
                }
                board.pieceboards[target] = board.pieceboards[target] & !endboard;
                board.occupancies[enemy_raw] = board.occupancies[enemy_raw] & !endboard;
                board.key = board.key ^ piece_key(target, final_square);
            },
            None => {
                let ep_target_square = final_square + 8 - raw_side * 16;
                let ep_board = !(1u64 << (ep_target_square as u64));
                board.pieceboards[enemy_raw * 6] = board.pieceboards[enemy_raw * 6] & ep_board;
                board.occupancies[enemy_raw] = board.occupancies[enemy_raw] & ep_board;
                board.key = board.key ^ piece_key(enemy_raw * 6, ep_target_square);
            },
        }
    } else {
        if extra == 1 {
            board.enpassant = 1u64 << ((final_square + 8 - 16 * raw_side) as u64);
            board.key = board.key ^ ep_key(final_square % 8);
        } else if extra == 2 {
            let rook = raw_side * 6 + 3;
            let notrookstart = !(1u64 << ((initial_square + 3) as u64));
            let rookend = 1u64 << ((initial_square + 1) as u64);
            board.pieceboards[rook] = (board.pieceboards[rook] & notrookstart) | rookend;
            board.occupancies[raw_side] = (board.occupancies[raw_side] & notrookstart) | rookend;
            board.key = board.key ^ (piece_key(rook, initial_square + 3) ^ piece_key(
                rook,
                initial_square + 1,
            ));
        } else if extra == 3 {
            let rook = raw_side * 6 + 3;
            let notrookstart = !(1u64 << ((initial_square - 4) as u64));
            let rookend = 1u64 << ((initial_square - 1) as u64);
            board.pieceboards[rook] = (board.pieceboards[rook] & notrookstart) | rookend;
            board.occupancies[raw_side] = (board.occupancies[raw_side] & notrookstart) | rookend;
            board.key = board.key ^ (piece_key(rook, initial_square - 4) ^ piece_key(
                rook,
                initial_square - 1,
            ));
        }
    }
    if promotion {
        let piece = ((3 & extra) + 1) as usize + raw_side * 6;
        board.pieceboards[attacker] = board.pieceboards[attacker] & !endboard;
        board.pieceboards[piece] = board.pieceboards[piece] | endboard;
        board.key = board.key ^ (piece_key(attacker, final_square) ^ piece_key(piece, final_square));
    }
    board.side = match board.side {
        Some(0) => Some(1),
        Some(1) => Some(0),
        _ => None,
    };
    board.key = board.key ^ side_key();
    board.occupancies[2] = board.occupancies[1] | board.occupancies[0];
}

/// The board after passing the move: the other side moves, the en passant square goes.
pub open spec fn after_null_move(b: Board) -> Board {
    let key1 = b.key ^ spec_side_key();
    Board {
        side: next_side(b.side),
        key: if b.enpassant != 0 {
            key1 ^ spec_ep_key(lowest(b.enpassant) as int % 8)
        } else {
            key1
        },
        enpassant: 0,
        ..b
    }
}

/// Passes the move to the other side.
pub fn null_move(board: &mut Board)
    ensures
        *final(board) == after_null_move(*old(board)),
{
    board.side = match board.side {
        Some(0) => Some(1),
        Some(1) => Some(0),
        _ => None,
    };
    board.key = board.key ^ side_key();
    if board.enpassant != 0 {
        proof {
            crate::bits::lemma_lowest(board.enpassant);
        }
        board.key = board.key ^ ep_key((board.enpassant.trailing_zeros()) as usize % 8);
    }
    board.enpassant = 0;
}

/// The key of a board computed from its pieces, side, rights and en passant square.
pub open spec fn board_key(b: Board) -> u64 {
    position_key(b.pieceboards, b.side, b.castle, b.enpassant)
}

/// Some piece of a range on a square means a first one is there.
pub proof fn lemma_first_exists(b: Board, lo: int, sq: int)
    requires
        some_piece_from(b, lo, sq),
    ensures
        first_piece_from(b, lo, sq, first_piece(b, lo, sq)),
{
    let w = choose|j: int| lo <= j < lo + 6 && has_bit(#[trigger] b.pieceboards[j], sq as u64);
    lemma_first_below(b, lo, sq, w);
}

proof fn lemma_first_below(b: Board, lo: int, sq: int, w: int)
    requires
        lo <= w < lo + 6,
        has_bit(b.pieceboards[w], sq as u64),
    ensures
        first_piece_from(b, lo, sq, first_piece(b, lo, sq)),
    decreases w - lo,
{
    if forall|j: int| lo <= j < w ==> !has_bit(#[trigger] b.pieceboards[j], sq as u64) {
        assert(first_piece_from(b, lo, sq, w));
    } else {
        let v = choose|j: int| lo <= j < w && has_bit(#[trigger] b.pieceboards[j], sq as u64);
        lemma_first_below(b, lo, sq, v);
    }
}

pub proof fn lemma_lowest_single(x: u64)
    requires
        x < 64,
    ensures
        lowest(single(x)) == x,
{
    crate::bits::lemma_u64_squares(0, 0, x, 0);
    lemma_lowest(single(x));
    lemma_bit_single(x, lowest(single(x)));
    if x < lowest(single(x)) {
        lemma_bit_single(x, x);
    }
}

/// A move whose incremental key update matches the key computed from scratch: a side is to
/// move, the mover leaves a square for another one free of its own pieces, an en passant
/// capture finds the pawn it takes, and a castle finds its rook home and its rook square free.
pub open spec fn move_consistent(b: Board, m: u16) -> bool {
    let init = spec_initial(m);
    let fin = spec_final(m);
    let extra = spec_extra(m);
    let rs = side_index(b);
    let er = enemy_index(b);
    let rook = rs * 6 + 3;
    let from = if extra == 2 { init + 3 } else { init - 4 };
    let to = if extra == 2 { init + 1 } else { init - 1 };
    &&& b.side == Some(0u8) || b.side == Some(1u8)
    &&& move_ok(b, m)
    &&& init != fin
    &&& forall|j: int| 6 * rs <= j < 6 * rs + 6 ==> !has_bit(#[trigger] b.pieceboards[j], fin as u64)
    &&& is_capture(m) && !has_bit(b.occupancies[2], fin as u64) ==> has_bit(
        b.pieceboards[er * 6],
        (fin + 8 - rs * 16) as u64,
    )
    &&& !is_capture(m) && (extra == 2 || extra == 3) ==> {
        &&& has_bit(b.pieceboards[rook], from as u64)
        &&& !has_bit(b.pieceboards[rook], to as u64)
        &&& !has_bit(b.pieceboards[rook], init as u64)
    }
}

pub open spec fn mover_delta(b: Board, m: u16) -> u64 {
    let a = first_piece(b, 6 * side_index(b), spec_initial(m));
    spec_piece_key(a, spec_initial(m)) ^ spec_piece_key(a, spec_final(m))
}

pub open spec fn capture_delta(b: Board, m: u16) -> u64 {
    let init = spec_initial(m);
    let fin = spec_final(m);
    let extra = spec_extra(m);
    let rs = side_index(b);
    let er = enemy_index(b);
    if is_capture(m) {
        if has_bit(b.occupancies[2], fin as u64) {
            spec_piece_key(first_piece(moved_piece(b, m), enemy_base(b), fin), fin)
        } else {
            spec_piece_key(er * 6, fin + 8 - rs * 16)
        }
    } else if extra == 2 || extra == 3 {
        let rook = rs * 6 + 3;
        let from = if extra == 2 { init + 3 } else { init - 4 };
        let to = if extra == 2 { init + 1 } else { init - 1 };
        spec_piece_key(rook, from) ^ spec_piece_key(rook, to)
    } else {
        0u64
    }
}

pub open spec fn promotion_delta(b: Board, m: u16) -> u64 {
    let fin = spec_final(m);
    let rs = side_index(b);
    let a = first_piece(b, 6 * rs, spec_initial(m));
    let pc = ((spec_extra(m) % 4) + 1) + rs * 6;
    if is_promotion(m) {
        spec_piece_key(a, fin) ^ spec_piece_key(pc, fin)
    } else {
        0u64
    }
}

pub open spec fn ep_term(ep: u64) -> u64 {
    if ep != 0 {
        crate::zobrist::spec_ep_key(lowest(ep) as int % 8)
    } else {
        0u64
    }
}

proof fn lemma_move_fields(m: u16)
    ensures
        0 <= spec_initial(m) < 64,
        0 <= spec_final(m) < 64,
        0 <= spec_extra(m) < 16,
        is_promotion(m) ==> spec_extra(m) >= 8,
{
    lemma_u16_fields(m, 0);
}

/// The mover's two squares toggle its two keys.
proof fn lemma_key_mover(b: Board, m: u16)
    requires
        move_consistent(b, m),
    ensures
        pieces_keys(moved_piece(b, m).pieceboards, 12) == pieces_keys(b.pieceboards, 12)
            ^ mover_delta(b, m),
        has_bit(moved_piece(b, m).pieceboards[first_piece(b, 6 * side_index(b), spec_initial(m))], spec_final(m) as u64),
        6 * side_index(b) <= first_piece(b, 6 * side_index(b), spec_initial(m)) < 6 * side_index(b) + 6,
        forall|j: int|
            0 <= j < 12 && j != first_piece(b, 6 * side_index(b), spec_initial(m)) ==> #[trigger] moved_piece(
                b,
                m,
            ).pieceboards[j] == b.pieceboards[j],
{
    let init = spec_initial(m);
    let fin = spec_final(m);
    let rs = side_index(b);
    let a = first_piece(b, 6 * rs, init);
    let si = single(init as u64);
    let sf = single(fin as u64);
    lemma_move_fields(m);
    lemma_first_exists(b, 6 * rs, init);
    lemma_move_form(b.pieceboards[a], init as u64, fin as u64);
    lemma_pieces_keys_toggle2(b.pieceboards, a, init as u64, fin as u64);
    let pb1 = moved_piece(b, m).pieceboards;
    assert(pb1@ == b.pieceboards@.update(a, (b.pieceboards[a] ^ si) ^ sf));
    lemma_bit_xor(b.pieceboards[a] ^ si, sf, fin as u64);
    lemma_bit_xor(b.pieceboards[a], si, fin as u64);
    lemma_bit_single(fin as u64, fin as u64);
    lemma_bit_single(init as u64, fin as u64);
}

/// The capture, double push or castle stage toggles the keys of the squares it changes.
proof fn lemma_key_capture(b: Board, m: u16)
    requires
        move_consistent(b, m),
    ensures
        pieces_keys(capture_stage(b, m).0, 12) == pieces_keys(moved_piece(b, m).pieceboards, 12)
            ^ capture_delta(b, m),
        capture_stage(b, m).2 == (key_after_rights(b, m) ^ capture_delta(b, m)) ^ ep_term(
            capture_stage(b, m).3,
        ),
        is_promotion(m) ==> forall|j: int|
            6 * side_index(b) <= j < 6 * side_index(b) + 6 ==> #[trigger] capture_stage(b, m).0[j]
                == moved_piece(b, m).pieceboards[j],
{
    lemma_move_fields(m);
    lemma_key_mover(b, m);
    let fin = spec_final(m);
    let extra = spec_extra(m);
    if is_capture(m) {
        if has_bit(b.occupancies[2], fin as u64) {
            lemma_key_capture_target(b, m);
        } else {
            lemma_key_capture_ep(b, m);
        }
    } else if extra == 1 {
        lemma_key_push(b, m);
    } else if extra == 2 || extra == 3 {
        lemma_key_castle(b, m);
    } else {
        crate::zobrist::lemma_xor(key_after_rights(b, m), 0, 0);
        crate::zobrist::lemma_xor(pieces_keys(moved_piece(b, m).pieceboards, 12), 0, 0);
    }
}

proof fn lemma_key_capture_target(b: Board, m: u16)
    requires
        move_consistent(b, m),
        is_capture(m),
        has_bit(b.occupancies[2], spec_final(m) as u64),
    ensures
        pieces_keys(capture_stage(b, m).0, 12) == pieces_keys(moved_piece(b, m).pieceboards, 12)
            ^ capture_delta(b, m),
        capture_stage(b, m).2 == (key_after_rights(b, m) ^ capture_delta(b, m)) ^ ep_term(
            capture_stage(b, m).3,
        ),
        forall|j: int|
            6 * side_index(b) <= j < 6 * side_index(b) + 6 ==> #[trigger] capture_stage(b, m).0[j]
                == moved_piece(b, m).pieceboards[j],
{
    lemma_move_fields(m);
    let fin = spec_final(m);
    let pb1 = moved_piece(b, m).pieceboards;
    let t = first_piece(moved_piece(b, m), enemy_base(b), fin);
    lemma_first_exists(moved_piece(b, m), enemy_base(b), fin);
    lemma_toggle_forms(pb1[t], fin as u64);
    lemma_pieces_keys_toggle(pb1, t, fin as u64);
    let pb2 = capture_stage(b, m).0;
    assert(pb2@ == pb1@.update(t, pb1[t] ^ single(fin as u64)));
    crate::zobrist::lemma_xor(capture_stage(b, m).2, 0, 0);
}

proof fn lemma_key_capture_ep(b: Board, m: u16)
    requires
        move_consistent(b, m),
        is_capture(m),
        !has_bit(b.occupancies[2], spec_final(m) as u64),
    ensures
        pieces_keys(capture_stage(b, m).0, 12) == pieces_keys(moved_piece(b, m).pieceboards, 12)
            ^ capture_delta(b, m),
        capture_stage(b, m).2 == (key_after_rights(b, m) ^ capture_delta(b, m)) ^ ep_term(
            capture_stage(b, m).3,
        ),
        forall|j: int|
            6 * side_index(b) <= j < 6 * side_index(b) + 6 ==> #[trigger] capture_stage(b, m).0[j]
                == moved_piece(b, m).pieceboards[j],
{
    lemma_move_fields(m);
    lemma_key_mover(b, m);
    let fin = spec_final(m);
    let rs = side_index(b);
    let er = enemy_index(b);
    let pb1 = moved_piece(b, m).pieceboards;
    let eps = fin + 8 - rs * 16;
    assert(pb1[er * 6] == b.pieceboards[er * 6]);
    lemma_toggle_forms(pb1[er * 6], eps as u64);
    lemma_pieces_keys_toggle(pb1, er * 6, eps as u64);
    let pb2 = capture_stage(b, m).0;
    assert(pb2@ == pb1@.update(er * 6, pb1[er * 6] ^ single(eps as u64)));
    crate::zobrist::lemma_xor(capture_stage(b, m).2, 0, 0);
}

proof fn lemma_key_push(b: Board, m: u16)
    requires
        move_consistent(b, m),
        !is_capture(m),
        spec_extra(m) == 1,
    ensures
        pieces_keys(capture_stage(b, m).0, 12) == pieces_keys(moved_piece(b, m).pieceboards, 12)
            ^ capture_delta(b, m),
        capture_stage(b, m).2 == (key_after_rights(b, m) ^ capture_delta(b, m)) ^ ep_term(
            capture_stage(b, m).3,
        ),
{
    lemma_move_fields(m);
    let fin = spec_final(m);
    let rs = side_index(b);
    let x = (fin + 8 - 16 * rs) as u64;
    lemma_lowest_single(x);
    assert(x as int % 8 == fin % 8);
    crate::zobrist::lemma_xor(key_after_rights(b, m), 0, 0);
    crate::zobrist::lemma_xor(pieces_keys(moved_piece(b, m).pieceboards, 12), 0, 0);
}

proof fn lemma_key_castle(b: Board, m: u16)
    requires
        move_consistent(b, m),
        !is_capture(m),
        spec_extra(m) == 2 || spec_extra(m) == 3,
    ensures
        pieces_keys(capture_stage(b, m).0, 12) == pieces_keys(moved_piece(b, m).pieceboards, 12)
            ^ capture_delta(b, m),
        capture_stage(b, m).2 == (key_after_rights(b, m) ^ capture_delta(b, m)) ^ ep_term(
            capture_stage(b, m).3,
        ),
{
    lemma_move_fields(m);
    lemma_key_mover(b, m);
    let init = spec_initial(m);
    let extra = spec_extra(m);
    let rs = side_index(b);
    let pb1 = moved_piece(b, m).pieceboards;
    let rook = rs * 6 + 3;
    let from = if extra == 2 { init + 3 } else { init - 4 };
    let to = if extra == 2 { init + 1 } else { init - 1 };
    lemma_first_exists(b, 6 * rs, init);
    assert(first_piece(b, 6 * rs, init) != rook);
    assert(pb1[rook] == b.pieceboards[rook]);
    lemma_move_form(pb1[rook], from as u64, to as u64);
    lemma_pieces_keys_toggle2(pb1, rook, from as u64, to as u64);
    let pb2 = capture_stage(b, m).0;
    assert(pb2@ == pb1@.update(rook, (pb1[rook] ^ single(from as u64)) ^ single(to as u64)));
    crate::zobrist::lemma_xor(capture_stage(b, m).2, 0, 0);
}

/// A promotion toggles the pawn away and the new piece in on the target square.
#[verifier::rlimit(30)]
proof fn lemma_key_promotion(b: Board, m: u16)
    requires
        move_consistent(b, m),
    ensures
        pieces_keys(after_move(b, m).pieceboards, 12) == pieces_keys(capture_stage(b, m).0, 12)
            ^ promotion_delta(b, m),
        promotion_stage(b, m, capture_stage(b, m).0, capture_stage(b, m).2).1 == capture_stage(
            b,
            m,
        ).2 ^ promotion_delta(b, m),
{
    let fin = spec_final(m);
    let extra = spec_extra(m);
    let rs = side_index(b);
    let a = first_piece(b, 6 * rs, spec_initial(m));
    let sf = single(fin as u64);
    lemma_move_fields(m);
    lemma_key_mover(b, m);
    lemma_key_capture(b, m);
    let pb2 = capture_stage(b, m).0;
    let key4 = capture_stage(b, m).2;
    let p2 = pieces_keys(pb2, 12);
    if is_promotion(m) {
        let pc = ((extra % 4) + 1) + rs * 6;
        lemma_toggle_forms(pb2[a], fin as u64);
        let pa = spec_array_update(pb2, a, pb2[a] ^ sf);
        lemma_pieces_keys_toggle(pb2, a, fin as u64);
        lemma_bit_xor(pb2[a], sf, fin as u64);
        lemma_bit_single(fin as u64, fin as u64);
        assert(pb2[a] == moved_piece(b, m).pieceboards[a]);
        if pc != a {
            assert(pa[pc] == pb2[pc]);
            assert(pb2[pc] == moved_piece(b, m).pieceboards[pc]);
            assert(moved_piece(b, m).pieceboards[pc] == b.pieceboards[pc]);
        }
        lemma_toggle_forms(pa[pc], fin as u64);
        lemma_pieces_keys_toggle(pa, pc, fin as u64);
        let ka = spec_piece_key(a, fin);
        let kc = spec_piece_key(pc, fin);
        let pa_k = pieces_keys(pa, 12);
        let p3 = pieces_keys(after_move(b, m).pieceboards, 12);
        assert(after_move(b, m).pieceboards@ == pa@.update(pc, pa[pc] ^ sf));
        crate::zobrist::lemma_xor(p2, ka, kc);
    } else {
        crate::zobrist::lemma_xor(p2, 0, 0);
        crate::zobrist::lemma_xor(key4, 0, 0);
    }
}

/// Playing a consistent move on a board whose key is the key of its position gives a
/// board whose key is again the key of its position.
pub proof fn lemma_make_move_keeps_key(b: Board, m: u16)
    requires
        move_consistent(b, m),
        b.key == board_key(b),
    ensures
        after_move(b, m).key == board_key(after_move(b, m)),
{
    lemma_key_mover(b, m);
    lemma_key_capture(b, m);
    lemma_key_promotion(b, m);
    let r = after_move(b, m);
    let p0 = pieces_keys(b.pieceboards, 12);
    let p1 = pieces_keys(moved_piece(b, m).pieceboards, 12);
    let p2 = pieces_keys(capture_stage(b, m).0, 12);
    let p3 = pieces_keys(r.pieceboards, 12);
    let d1 = mover_delta(b, m);
    let d2 = capture_delta(b, m);
    let d3 = promotion_delta(b, m);
    let sk = crate::zobrist::spec_side_key();
    let s0 = if b.side == Some(1u8) { sk } else { 0u64 };
    let s1 = if r.side == Some(1u8) { sk } else { 0u64 };
    let c0 = crate::zobrist::spec_castle_key(b.castle as int);
    let c1 = crate::zobrist::spec_castle_key(r.castle as int);
    let e0 = ep_term(b.enpassant);
    let e1 = ep_term(r.enpassant);
    let k0 = b.key;
    let key1 = k0 ^ d1;
    let key3 = key_after_rights(b, m);
    let key4 = capture_stage(b, m).2;
    let key5 = key4 ^ d3;
    assert(key3 == ((key1 ^ e0) ^ c0) ^ c1) by {
        crate::zobrist::lemma_xor(key1, 0, 0);
    }
    assert(s1 == s0 ^ sk) by {
        crate::zobrist::lemma_xor(sk, 0, 0);
    }
    assert(r.key == key5 ^ sk);
    assert(board_key(r) == ((p3 ^ s1) ^ c1) ^ e1);
    assert(key5 ^ sk == ((p3 ^ s1) ^ c1) ^ e1) by (bit_vector)
        requires
            k0 == ((p0 ^ s0) ^ c0) ^ e0,
            p1 == p0 ^ d1,
            p2 == p1 ^ d2,
            p3 == p2 ^ d3,
            s1 == s0 ^ sk,
            key1 == k0 ^ d1,
            key3 == ((key1 ^ e0) ^ c0) ^ c1,
            key4 == (key3 ^ d2) ^ e1,
            key5 == key4 ^ d3,
    ;
}

/// Passing the move keeps the key of the position when a side is to move.
pub proof fn lemma_null_move_keeps_key(b: Board)
    requires
        b.side == Some(0u8) || b.side == Some(1u8),
        b.key == board_key(b),
    ensures
        after_null_move(b).key == board_key(after_null_move(b)),
{
    let r = after_null_move(b);
    let p = pieces_keys(b.pieceboards, 12);
    let sk = crate::zobrist::spec_side_key();
    let s0 = if b.side == Some(1u8) { sk } else { 0u64 };
    let s1 = if r.side == Some(1u8) { sk } else { 0u64 };
    let c = crate::zobrist::spec_castle_key(b.castle as int);
    let e0 = ep_term(b.enpassant);
    let k = b.key;
    assert(s1 == s0 ^ sk) by {
        crate::zobrist::lemma_xor(sk, 0, 0);
    }
    assert(r.key == (k ^ sk) ^ e0) by {
        crate::zobrist::lemma_xor(k ^ sk, 0, 0);
    }
    assert(board_key(r) == ((p ^ s1) ^ c) ^ 0u64);
    assert((k ^ sk) ^ e0 == ((p ^ s1) ^ c) ^ 0u64) by (bit_vector)
        requires
            k == ((p ^ s0) ^ c) ^ e0,
            s1 == s0 ^ sk,
    ;
}

/// Passing the move twice, with no en passant square, gives back the same board.
pub proof fn lemma_null_move_twice(b: Board)
    requires
        b.side == Some(0u8) || b.side == Some(1u8),
        b.enpassant == 0,
    ensures
        after_null_move(after_null_move(b)) == b,
{
    let sk = crate::zobrist::spec_side_key();
    let k = b.key;
    crate::zobrist::lemma_xor(k, sk, sk);
    crate::zobrist::lemma_xor(sk, 0, 0);
    crate::zobrist::lemma_xor(k, 0, 0);
}

pub open spec fn spec_castling_rights_of(square: int) -> u8 {
    crate::piececonstants::spec_castling_rights(square)
}

/// Whether some board among `pieceboards[lo..lo + 6]` of `b` holds `sq`.
fn has_piece_in(b: &Board, lo: usize, sq: usize) -> (r: bool)
    requires
        lo <= 6,
        sq < 64,
    ensures
        r == some_piece_from(*b, lo as int, sq as int),
{
    let sqb = 1u64 << (sq as u64);
    for j in 0..6usize
        invariant
            lo <= 6,
            sq < 64,
            sqb == single(sq as u64),
            forall|i: int| lo <= i < lo + j ==> !has_bit(#[trigger] b.pieceboards[i], sq as u64),
    {
        proof {
            crate::bits::lemma_and_single(b.pieceboards[lo + j], sq as u64);
            crate::bits::lemma_and_comm(sqb, b.pieceboards[lo + j]);
        }
        if sqb & b.pieceboards[lo + j] != 0 {
            return true;
        }
    }
    false
}

/// Whether `make_move` can play `m` on `board`: `move_ok` decided at run time.
pub fn move_ok_exec(board: &Board, m: u16) -> (ok: bool)
    ensures
        ok == move_ok(*board, m),
{
    let init = m.get_initial() as usize;
    let fin = m.get_final() as usize;
    let extra = m.get_extra();
    let rs: usize = if board.side == Some(1) { 1 } else { 0 };
    if !has_piece_in(board, 6 * rs, init) {
        return false;
    }
    let capture = m & 0x4000 != 0;
    proof {
        crate::bits::lemma_and_single(board.occupancies[2], fin as u64);
    }
    let occupied = board.occupancies[2] & (1u64 << (fin as u64)) != 0;
    if capture && occupied {
        let attacker = board.get_attacker(init);
        proof {
            lemma_first_piece(*board, 6 * side_index(*board), init as int, attacker as int);
        }
        let mut moved = *board;
        moved.pieceboards[attacker] = (moved.pieceboards[attacker] & !(1u64 << (init as u64))) | (
        1u64 << (fin as u64));
        assert(moved == moved_piece(*board, m));
        let eb: usize = if board.side == Some(0) { 6 } else { 0 };
        if !has_piece_in(&moved, eb, fin) {
            return false;
        }
    }
    if (capture && !occupied) || (!capture && extra == 1) {
        let in_range = if rs == 0 { fin + 8 < 64 } else { fin >= 8 };
        if !in_range {
            return false;
        }
    }
    if !capture && extra == 2 && init + 3 >= 64 {
        return false;
    }
    if !capture && extra == 3 && init < 4 {
        return false;
    }
    true
}

/// The position that `make_move` leaves after `m`, when it can play `m`.
pub closed spec fn position_after(b: Board, m: u16) -> Option<Board> {
    if move_ok(b, m) {
        Some(after_move(b, m))
    } else {
        None
    }
}

/// A move that `make_move` cannot play leads nowhere.
pub proof fn lemma_no_position_after(b: Board, m: u16)
    requires
        !move_ok(b, m),
    ensures
        position_after(b, m) is None,
{
}

/// The position after `m`, or `None` when `make_move` cannot play `m` on `board`.
pub fn next_position(board: &Board, m: u16) -> (next: Option<Board>)
    ensures
        next == position_after(*board, m),
{
    if move_ok_exec(board, m) {
        let mut b = *board;
        make_move(&mut b, &m);
        Some(b)
    } else {
        None
    }
}

/// The file letter of square `sq`: `a` to `h`.
pub open spec fn file_char(sq: int) -> char {
    ('a' as int + sq % 8) as char
}

/// The rank digit of square `sq`: `8` on the first row down to `1`.
pub open spec fn rank_char(sq: int) -> char {
    ('8' as int - sq / 8) as char
}

/// The letter of a promotion piece: knight, bishop, rook, queen.
pub open spec fn promotion_char(k: int) -> char {
    if k == 0 {
        'n'
    } else if k == 1 {
        'b'
    } else if k == 2 {
        'r'
    } else {
        'q'
    }
}

/// The coordinate notation of a move.
pub open spec fn uci_text(m: u16) -> Seq<char> {
    let squares = seq![
        file_char(spec_initial(m)),
        rank_char(spec_initial(m)),
        file_char(spec_final(m)),
        rank_char(spec_final(m)),
    ];
    if is_promotion(m) {
        squares.push(promotion_char(spec_extra(m) % 4))
    } else {
        squares
    }
}

fn file_str(file: usize) -> (s: &'static str)
    requires
        file < 8,
    ensures
        s@ == seq![file_char(file as int)],
{
    proof {
        reveal_strlit("a");
        reveal_strlit("b");
        reveal_strlit("c");
        reveal_strlit("d");
        reveal_strlit("e");
        reveal_strlit("f");
        reveal_strlit("g");
        reveal_strlit("h");
    }
    if file == 0 {
        "a"
    } else if file == 1 {
        "b"
    } else if file == 2 {
        "c"
    } else if file == 3 {
        "d"
    } else if file == 4 {
        "e"
    } else if file == 5 {
        "f"
    } else if file == 6 {
        "g"
    } else {
        "h"
    }
}

fn rank_str(row: usize) -> (s: &'static str)
    requires
        row < 8,
    ensures
        s@ == seq![('8' as int - row) as char],
{
    proof {
        reveal_strlit("8");
        reveal_strlit("7");
        reveal_strlit("6");
        reveal_strlit("5");
        reveal_strlit("4");
        reveal_strlit("3");
        reveal_strlit("2");
        reveal_strlit("1");
    }
    if row == 0 {
        "8"
    } else if row == 1 {
        "7"
    } else if row == 2 {
        "6"
    } else if row == 3 {
        "5"
    } else if row == 4 {
        "4"
    } else if row == 5 {
        "3"
    } else if row == 6 {
        "2"
    } else {
        "1"
    }
}

fn promotion_str(k: usize) -> (s: &'static str)
    requires
        k < 4,
    ensures
        s@ == seq![promotion_char(k as int)],
{
    proof {
        reveal_strlit("n");
        reveal_strlit("b");
        reveal_strlit("r");
        reveal_strlit("q");
    }
    if k == 0 {
        "n"
    } else if k == 1 {
        "b"
    } else if k == 2 {
        "r"
    } else {
        "q"
    }
}

} // verus!
