//! Reading a position from Forsyth-Edwards notation.
//!
//! A FEN string is read one character at a time. Its space-separated fields are the piece
//! placement (ranks from the eighth down, digits skipping squares, `/` between ranks), the
//! side to move, the castling rights and the en passant square; later fields are ignored.
use vstd::prelude::*;
use vstd::array::spec_array_update;
use crate::bits::{single, has_bit};
use crate::engine::Board;
use crate::zobrist::{piece_key, castle_key, ep_key, side_key, spec_piece_key, spec_castle_key, spec_ep_key, spec_side_key, pieces_keys, board_keys};
use crate::moves::board_key;

verus! {

/// Where a reading of a FEN string stands after some of its characters.
#[derive(Copy, Clone)]
pub struct FenScan {
    /// The position read so far.
    pub board: Board,
    /// The field being read: the number of spaces seen.
    pub seg: usize,
    /// The next square of the piece placement.
    pub square: usize,
    /// An unexpected character ended the current field.
    pub stopped: bool,
    /// Number of characters of the en passant field seen.
    pub ep_len: usize,
    /// First character of the en passant field.
    pub ep0: char,
    /// Second character of the en passant field.
    pub ep1: char,
}

pub open spec fn is_digit(c: char) -> bool {
    '0' as int <= c as int <= '9' as int
}

/// The piece board of a piece letter: `PNBRQK` white, `pnbrqk` black; 12 for anything else.
pub open spec fn fen_piece(c: char) -> int {
    if c == 'P' {
        0
    } else if c == 'N' {
        1
    } else if c == 'B' {
        2
    } else if c == 'R' {
        3
    } else if c == 'Q' {
        4
    } else if c == 'K' {
        5
    } else if c == 'p' {
        6
    } else if c == 'n' {
        7
    } else if c == 'b' {
        8
    } else if c == 'r' {
        9
    } else if c == 'q' {
        10
    } else if c == 'k' {
        11
    } else {
        12
    }
}

/// The castling right of a letter of the castling field, 0 for anything else.
pub open spec fn castle_bit(c: char) -> int {
    if c == 'K' {
        1
    } else if c == 'Q' {
        2
    } else if c == 'k' {
        4
    } else if c == 'q' {
        8
    } else {
        0
    }
}

/// `b` with piece `p` placed on `sq` and its key added.
pub open spec fn place(b: Board, p: int, sq: int) -> Board {
    let bit = single(sq as u64);
    let color = if p < 6 {
        0int
    } else {
        1int
    };
    let occ1 = spec_array_update(b.occupancies, 2, b.occupancies[2] | bit);
    Board {
        pieceboards: spec_array_update(b.pieceboards, p, b.pieceboards[p] | bit),
        occupancies: spec_array_update(occ1, color, occ1[color] | bit),
        key: b.key ^ spec_piece_key(p, sq),
        ..b
    }
}

/// Whether reading `c` can proceed: a piece lands on the board, and no count overflows.
#[verifier::opaque]
pub open spec fn fen_step_ok(st: FenScan, c: char) -> bool {
    if c == ' ' {
        st.seg < usize::MAX
    } else if st.seg == 0 {
        if is_digit(c) {
            st.square + (c as int - '0' as int) <= usize::MAX
        } else if c == '/' {
            true
        } else {
            st.square < usize::MAX && (fen_piece(c) < 12 ==> st.square < 64)
        }
    } else if st.seg == 2 {
        st.stopped || st.board.castle + castle_bit(c) <= 255
    } else if st.seg == 3 {
        st.ep_len < usize::MAX
    } else {
        true
    }
}

/// The reading after character `c`.
#[verifier::opaque]
pub open spec fn fen_step(st: FenScan, c: char) -> FenScan {
    let b = st.board;
    if c == ' ' {
        FenScan { seg: (st.seg + 1) as usize, stopped: false, ..st }
    } else if st.seg == 0 {
        if is_digit(c) {
            FenScan { square: (st.square + (c as int - '0' as int)) as usize, ..st }
        } else if c == '/' {
            st
        } else {
            let p = fen_piece(c);
            FenScan {
                board: if p < 12 {
                    place(b, p, st.square as int)
                } else {
                    b
                },
                square: (st.square + 1) as usize,
                ..st
            }
        }
    } else if st.seg == 1 {
        if st.stopped {
            st
        } else if c == 'w' {
            FenScan { board: Board { side: Some(0u8), ..b }, ..st }
        } else if c == 'b' {
            FenScan { board: Board { side: Some(1u8), key: b.key ^ spec_side_key(), ..b }, ..st }
        } else {
            FenScan { stopped: true, ..st }
        }
    } else if st.seg == 2 {
        if st.stopped {
            st
        } else if castle_bit(c) != 0 {
            FenScan { board: Board { castle: (b.castle + castle_bit(c)) as u8, ..b }, ..st }
        } else if c == '-' {
            st
        } else {
            FenScan { stopped: true, ..st }
        }
    } else if st.seg == 3 {
        FenScan {
            ep_len: (st.ep_len + 1) as usize,
            ep0: if st.ep_len == 0 {
                c
            } else {
                st.ep0
            },
            ep1: if st.ep_len == 1 {
                c
            } else {
                st.ep1
            },
            ..st
        }
    } else {
        st
    }
}

/// The empty position that reading starts from: only the move masks of `b` are kept.
pub open spec fn fen_start(b: Board) -> Board {
    Board {
        pieceboards: [0u64, 0u64, 0u64, 0u64, 0u64, 0u64, 0u64, 0u64, 0u64, 0u64, 0u64, 0u64],
        occupancies: [0u64, 0u64, 0u64],
        movemasks: b.movemasks,
        side: None,
        enpassant: 0,
        castle: 0,
        key: 0,
    }
}

pub open spec fn fen_init(b: Board) -> FenScan {
    FenScan { board: fen_start(b), seg: 0, square: 0, stopped: false, ep_len: 0, ep0: ' ', ep1: ' ' }
}

/// The reading after the first `n` characters of `s`.
pub open spec fn fen_scan(b: Board, s: Seq<char>, n: int) -> FenScan
    decreases n,
{
    if n <= 0 {
        fen_init(b)
    } else {
        fen_step(fen_scan(b, s, n - 1), s[n - 1])
    }
}

/// The en passant field is `-`.
pub open spec fn ep_dash(st: FenScan) -> bool {
    st.ep_len == 1 && st.ep0 == '-'
}

/// The end of a reading can be completed: four fields, castling rights below 16, and an en
/// passant field that is `-` or a square from a1 to h8.
pub open spec fn fen_end_ok(st: FenScan) -> bool {
    &&& st.seg >= 3
    &&& st.board.castle < 16
    &&& ep_dash(st) || (st.ep_len >= 2 && 'a' as int <= st.ep0 as int <= 'h' as int && '1' as int
        <= st.ep1 as int <= '8' as int)
}

/// The position that a completed reading gives: the castling key added, and the en passant
/// square with its key unless the field is `-`.
pub open spec fn fen_finish(st: FenScan) -> Board {
    let b = Board { key: st.board.key ^ spec_castle_key(st.board.castle as int), ..st.board };
    if ep_dash(st) {
        b
    } else {
        let file = st.ep0 as int - 'a' as int;
        let rank = 8 - (st.ep1 as int - '0' as int);
        Board { key: b.key ^ spec_ep_key(file), enpassant: single((rank * 8 + file) as u64), ..b }
    }
}

/// `s` is a FEN string that `parse_fen` reads without failing.
pub open spec fn fen_ok(b: Board, s: Seq<char>) -> bool {
    &&& forall|i: int| 0 <= i < s.len() ==> fen_step_ok(fen_scan(b, s, i), #[trigger] s[i])
    &&& fen_end_ok(fen_scan(b, s, s.len() as int))
}

/// The side field is read once: a `w` or `b` is taken only while no side is set yet.
pub open spec fn fen_side_once(b: Board, s: Seq<char>) -> bool {
    forall|i: int|
        0 <= i < s.len() && fen_scan(b, s, i).seg == 1 && !fen_scan(b, s, i).stopped && (#[trigger] s[i] == 'w'
            || s[i] == 'b') ==> fen_scan(b, s, i).board.side is None
}

/// The key of the reading so far is the key of its pieces and side to move, every piece
/// stands before the next square, and no en passant square is set.
pub open spec fn scan_key_ok(st: FenScan) -> bool {
    &&& st.board.key == pieces_keys(st.board.pieceboards, 12) ^ (if st.board.side == Some(1u8) {
        spec_side_key()
    } else {
        0u64
    })
    &&& forall|q: int, t: u64| 0 <= q < 12 && #[trigger] has_bit(st.board.pieceboards[q], t) ==> t < st.square
    &&& st.board.enpassant == 0
}

proof fn lemma_empty_keys(pb: [u64; 12], n: int)
    requires
        n <= 12,
        forall|q: int| 0 <= q < 12 ==> #[trigger] pb[q] == 0,
    ensures
        pieces_keys(pb, n) == 0,
    decreases n,
{
    if n > 0 {
        lemma_empty_keys(pb, n - 1);
        lemma_empty_board_keys(n - 1, 64);
        crate::bits::lemma_u64_laws(0, 0, 0);
    }
}

proof fn lemma_empty_board_keys(q: int, n: int)
    ensures
        board_keys(0, q, n) == 0,
    decreases n,
{
    if n > 0 {
        lemma_empty_board_keys(q, n - 1);
        crate::bits::lemma_bit_zero((n - 1) as u64);
        crate::bits::lemma_u64_laws(0, 0, 0);
    }
}

/// One character read keeps the key of the position read, when a side letter comes only
/// while no side is set.
proof fn lemma_scan_step(st: FenScan, c: char)
    requires
        scan_key_ok(st),
        fen_step_ok(st, c),
        c != ' ' && st.seg == 1 && !st.stopped && (c == 'w' || c == 'b') ==> st.board.side is None,
    ensures
        scan_key_ok(fen_step(st, c)),
{
    reveal(fen_step);
    reveal(fen_step_ok);
    let pk = pieces_keys(st.board.pieceboards, 12);
    let sk = spec_side_key();
    let sd = if st.board.side == Some(1u8) { sk } else { 0u64 };
    if c != ' ' && st.seg == 0 && !is_digit(c) && c != '/' && fen_piece(c) < 12 {
        let p = fen_piece(c);
        let sq = st.square as u64;
        let pb = st.board.pieceboards;
        assert(!has_bit(pb[p], sq));
        crate::zobrist::lemma_toggle_forms(pb[p], sq);
        crate::zobrist::lemma_pieces_keys_toggle(pb, p, sq);
        let k = spec_piece_key(p, sq as int);
        crate::zobrist::lemma_xor(pk, sd, k);
        crate::zobrist::lemma_xor(pk, k, sd);
        crate::zobrist::lemma_xor(sd, k, 0);
        let nb = fen_step(st, c).board.pieceboards;
        assert(nb@ == pb@.update(p, pb[p] | single(sq)));
        assert forall|q: int, t: u64| 0 <= q < 12 && #[trigger] has_bit(nb[q], t) implies t < st.square + 1 by {
            if q == p {
                crate::bits::lemma_u64_laws(nb[q], 0, t);
                crate::bits::lemma_bit_set(pb[p], sq, t);
            } else {
                assert(nb[q] == pb[q]);
            }
        }
    } else if c != ' ' && st.seg == 1 && !st.stopped && (c == 'w' || c == 'b') {
        crate::zobrist::lemma_xor(pk, sk, 0);
    }
}

/// Reading a FEN string whose side field is read once keeps the key of the position read.
proof fn lemma_scan_key(b: Board, s: Seq<char>, n: int)
    requires
        0 <= n <= s.len(),
        forall|i: int| 0 <= i < s.len() ==> fen_step_ok(fen_scan(b, s, i), #[trigger] s[i]),
        fen_side_once(b, s),
    ensures
        scan_key_ok(fen_scan(b, s, n)),
    decreases n,
{
    if n == 0 {
        let pb = fen_start(b).pieceboards;
        assert forall|q: int| 0 <= q < 12 implies #[trigger] pb[q] == 0 by {}
        lemma_empty_keys(pb, 12);
        crate::bits::lemma_u64_laws(0, 0, 0);
        assert forall|q: int, t: u64| 0 <= q < 12 && #[trigger] has_bit(pb[q], t) implies t < 0 by {
            crate::bits::lemma_bit_zero(t);
        }
    } else {
        lemma_scan_key(b, s, n - 1);
        assert(fen_step_ok(fen_scan(b, s, n - 1), s[n - 1]));
        lemma_scan_step(fen_scan(b, s, n - 1), s[n - 1]);
    }
}

/// A position read from a FEN string whose side field is read once has the key of its
/// pieces, side to move, castling rights and en passant file.
pub proof fn lemma_parsed_key(b: Board, s: Seq<char>)
    requires
        fen_ok(b, s),
        fen_side_once(b, s),
    ensures
        fen_finish(fen_scan(b, s, s.len() as int)).key == board_key(fen_finish(fen_scan(b, s, s.len() as int))),
{
    let st = fen_scan(b, s, s.len() as int);
    lemma_scan_key(b, s, s.len() as int);
    let pk = pieces_keys(st.board.pieceboards, 12);
    let sd = if st.board.side == Some(1u8) { spec_side_key() } else { 0u64 };
    let ck = spec_castle_key(st.board.castle as int);
    let r = fen_finish(st);
    if ep_dash(st) {
        crate::zobrist::lemma_xor((pk ^ sd) ^ ck, 0, 0);
    } else {
        let file = st.ep0 as int - 'a' as int;
        let rank = 8 - (st.ep1 as int - '0' as int);
        let sq = (rank * 8 + file) as u64;
        assert(sq < 64);
        crate::moves::lemma_lowest_single(sq);
        crate::bits::lemma_u64_squares(0, 0, sq, 0);
        assert(sq as int % 8 == file);
    }
}

/// Reads character `c`; false, with nothing read, when the reading cannot proceed.
fn fen_step_exec(st: &mut FenScan, c: char) -> (ok: bool)
    ensures
        ok == fen_step_ok(*old(st), c),
        ok ==> *final(st) == fen_step(*old(st), c),
{
    reveal(fen_step_ok);
    reveal(fen_step);
    if c == ' ' {
        if st.seg == usize::MAX {
            return false;
        }
        st.seg = st.seg + 1;
        st.stopped = false;
        return true;
    }
    if st.seg == 0 {
        if '0' <= c && c <= '9' {
            let d = (c as u32 - '0' as u32) as usize;
            if st.square > usize::MAX - d {
                return false;
            }
            st.square = st.square + d;
            true
        } else if c == '/' {
            true
        } else {
            let p: usize = match c {
                'P' => 0,
                'N' => 1,
                'B' => 2,
                'R' => 3,
                'Q' => 4,
                'K' => 5,
                'p' => 6,
                'n' => 7,
                'b' => 8,
                'r' => 9,
                'q' => 10,
                'k' => 11,
                _ => 12,
            };
            if st.square == usize::MAX || (p < 12 && st.square >= 64) {
                return false;
            }
            if p < 12 {
                let sq = st.square;
                let bit = 1u64 << (sq as u64);
                st.board.pieceboards[p] = st.board.pieceboards[p] | bit;
                st.board.occupancies[2] = st.board.occupancies[2] | bit;
                let color: usize = if p < 6 { 0 } else { 1 };
                st.board.occupancies[color] = st.board.occupancies[color] | bit;
                st.board.key = st.board.key ^ piece_key(p, sq);
            }
            st.square = st.square + 1;
            true
        }
    } else if st.seg == 1 {
        if !st.stopped {
            if c == 'w' {
                st.board.side = Some(0);
            } else if c == 'b' {
                st.board.key = st.board.key ^ side_key();
                st.board.side = Some(1);
            } else {
                st.stopped = true;
            }
        }
        true
    } else if st.seg == 2 {
        if !st.stopped {
            let bit: u8 = match c {
                'K' => 1,
                'Q' => 2,
                'k' => 4,
                'q' => 8,
                _ => 0,
            };
            if bit != 0 {
                if st.board.castle > 255 - bit {
                    return false;
                }
                st.board.castle = st.board.castle + bit;
            } else if c != '-' {
                st.stopped = true;
            }
        }
        true
    } else if st.seg == 3 {
        if st.ep_len == usize::MAX {
            return false;
        }
        if st.ep_len == 0 {
            st.ep0 = c;
        } else if st.ep_len == 1 {
            st.ep1 = c;
        }
        st.ep_len = st.ep_len + 1;
        true
    } else {
        true
    }
}

/// Reads all of `fen` from the empty position that keeps the move masks of `b`; `None` when
/// some character cannot be read.
fn scan_fen(b: &Board, fen: &str) -> (r: Option<FenScan>)
    ensures
        r is Some <==> forall|i: int|
            0 <= i < fen@.len() ==> fen_step_ok(fen_scan(*b, fen@, i), #[trigger] fen@[i]),
        r matches Some(st) ==> st == fen_scan(*b, fen@, fen@.len() as int),
{
    let start = Board {
        pieceboards: [0; 12],
        occupancies: [0; 3],
        movemasks: b.movemasks,
        side: None,
        enpassant: 0,
        castle: 0,
        key: 0,
    };
    assert(start.pieceboards@ =~= fen_start(*b).pieceboards@);
    assert(start.occupancies@ =~= fen_start(*b).occupancies@);
    assert(start.pieceboards == fen_start(*b).pieceboards);
    assert(start.occupancies == fen_start(*b).occupancies);
    assert(start == fen_start(*b));
    let mut st = FenScan { board: start, seg: 0, square: 0, stopped: false, ep_len: 0, ep0: ' ', ep1: ' ' };
    assert(st == fen_scan(*b, fen@, 0));
    let n = fen.unicode_len();
    let mut i: usize = 0;
    while i < n
        invariant
            n == fen@.len(),
            i <= n,
            st == fen_scan(*b, fen@, i as int),
            forall|j: int| 0 <= j < i ==> fen_step_ok(fen_scan(*b, fen@, j), #[trigger] fen@[j]),
        decreases n - i,
    {
        let c = fen.get_char(i);
        if !fen_step_exec(&mut st, c) {
            return None;
        }
        i = i + 1;
    }
    Some(st)
}

/// Whether `parse_fen` can read `fen`.
pub fn check_fen(b: &Board, fen: &str) -> (ok: bool)
    ensures
        ok == fen_ok(*b, fen@),
{
    match scan_fen(b, fen) {
        Some(st) => st.seg >= 3 && st.board.castle < 16 && ((st.ep_len == 1 && st.ep0 == '-') || (
        st.ep_len >= 2 && 'a' <= st.ep0 && st.ep0 <= 'h' && '1' <= st.ep1 && st.ep1 <= '8')),
        None => false,
    }
}

impl Board {
    /// Sets up the position that `fen` describes; the move masks are kept.
    pub fn parse_fen(&mut self, fen: String)
        requires
            fen_ok(*old(self), fen@),
        ensures
            *final(self) == fen_finish(fen_scan(*old(self), fen@, fen@.len() as int)),
            fen_side_once(*old(self), fen@) ==> final(self).key == board_key(*final(self)),
    {
        proof {
            if fen_side_once(*old(self), fen@) {
                lemma_parsed_key(*old(self), fen@);
            }
        }
        let ghost b = *self;
        let s = fen.as_str();
        let st = match scan_fen(self, s) {
            Some(st) => st,
            None => {
                return ;
            },
        };
        let mut result = st.board;
        result.key = result.key ^ castle_key(result.castle);
        if !(st.ep_len == 1 && st.ep0 == '-') {
            let file = (st.ep0 as u32 - 'a' as u32) as usize;
            let rank = 8 - (st.ep1 as u32 - '0' as u32) as usize;
            result.key = result.key ^ ep_key(file);
            result.enpassant = 1u64 << ((rank * 8 + file) as u64);
        }
        *self = result;
    }
}

} // verus!
