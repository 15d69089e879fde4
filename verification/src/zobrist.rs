//! Hash keys of pieces on squares, castling rights, en passant files and the side to move,
//! and the key of a whole position.
use vstd::prelude::*;
use crate::bits::{has_bit, single, lowest, lemma_bit_xor, lemma_bit_single, lemma_u64_laws, lemma_u64_squares};
use vstd::array::spec_array_update;

verus! {

/// A 64-bit mix of `x` (the splitmix64 finalizer applied to `x` times the golden ratio).
pub open spec fn key_mix(x: u64) -> u64 {
    let z0 = x.wrapping_mul(0x9E3779B97F4A7C15u64);
    let z1 = (z0 ^ (z0 >> 30u64)).wrapping_mul(0xBF58476D1CE4E5B9u64);
    let z2 = (z1 ^ (z1 >> 27u64)).wrapping_mul(0x94D049BB133111EBu64);
    z2 ^ (z2 >> 31u64)
}

fn mix(x: u64) -> (r: u64)
    ensures
        r == key_mix(x),
{
    let z0 = x.wrapping_mul(0x9E3779B97F4A7C15u64);
    let z1 = (z0 ^ (z0 >> 30u64)).wrapping_mul(0xBF58476D1CE4E5B9u64);
    let z2 = (z1 ^ (z1 >> 27u64)).wrapping_mul(0x94D049BB133111EBu64);
    z2 ^ (z2 >> 31u64)
}

pub open spec fn spec_piece_key(piece: int, square: int) -> u64 {
    key_mix((piece * 64 + square + 1) as u64)
}

pub open spec fn spec_castle_key(rights: int) -> u64 {
    key_mix((1000 + rights) as u64)
}

pub open spec fn spec_ep_key(file: int) -> u64 {
    key_mix((1100 + file) as u64)
}

pub open spec fn spec_side_key() -> u64 {
    key_mix(2000u64)
}

/// Key of `piece` (0..12) standing on `square`.
pub fn piece_key(piece: usize, square: usize) -> (k: u64)
    requires
        piece < 12,
        square < 64,
    ensures
        k == spec_piece_key(piece as int, square as int),
{
    mix((piece * 64 + square + 1) as u64)
}

/// Key of a set of castling rights (0..16).
pub fn castle_key(rights: u8) -> (k: u64)
    ensures
        k == spec_castle_key(rights as int),
{
    mix(1000 + rights as u64)
}

/// Key of an en passant file (0..8).
pub fn ep_key(file: usize) -> (k: u64)
    requires
        file < 8,
    ensures
        k == spec_ep_key(file as int),
{
    mix((1100 + file) as u64)
}

/// Key of black to move.
pub fn side_key() -> (k: u64)
    ensures
        k == spec_side_key(),
{
    mix(2000)
}

/// XOR of the keys of `piece` on the set squares of `bb` below `n`.
pub open spec fn board_keys(bb: u64, piece: int, n: int) -> u64
    decreases n,
{
    if n <= 0 {
        0
    } else {
        board_keys(bb, piece, n - 1) ^ (if has_bit(bb, (n - 1) as u64) {
            spec_piece_key(piece, n - 1)
        } else {
            0u64
        })
    }
}

/// XOR of the keys of all pieces of the first `n` bitboards.
pub open spec fn pieces_keys(pb: [u64; 12], n: int) -> u64
    decreases n,
{
    if n <= 0 {
        0
    } else {
        pieces_keys(pb, n - 1) ^ board_keys(pb[n - 1], n - 1, 64)
    }
}

/// The key of a whole position: its pieces, black to move, castling rights and en passant file.
pub open spec fn position_key(pb: [u64; 12], side: Option<u8>, castle: u8, enpassant: u64) -> u64 {
    pieces_keys(pb, 12) ^ (if side == Some(1u8) { spec_side_key() } else { 0u64 }) ^ spec_castle_key(
        castle as int,
    ) ^ (if enpassant != 0 { spec_ep_key(lowest(enpassant) as int % 8) } else { 0u64 })
}

pub proof fn lemma_xor(a: u64, b: u64, c: u64)
    ensures
        (a ^ b) ^ c == a ^ (b ^ c),
        a ^ b == b ^ a,
        a ^ a == 0,
        a ^ 0u64 == a,
        0u64 ^ a == a,
{
    lemma_u64_laws(a, b, c);
}

/// Toggling square `s` of a bitboard toggles the key of that square in its key sum.
pub proof fn lemma_board_keys_toggle(x: u64, q: int, s: u64, n: int)
    requires
        s < 64,
        n <= 64,
    ensures
        board_keys(x ^ single(s), q, n) == board_keys(x, q, n) ^ (if (s as int) < n {
            spec_piece_key(q, s as int)
        } else {
            0u64
        }),
    decreases n,
{
    let k = spec_piece_key(q, s as int);
    if n <= 0 {
        lemma_xor(0, 0, 0);
    } else {
        let i = (n - 1) as u64;
        lemma_board_keys_toggle(x, q, s, n - 1);
        lemma_bit_xor(x, single(s), i);
        lemma_bit_single(s, i);
        let b0 = board_keys(x, q, n - 1);
        let t = if has_bit(x, i) { spec_piece_key(q, n - 1) } else { 0u64 };
        let t2 = if has_bit(x ^ single(s), i) { spec_piece_key(q, n - 1) } else { 0u64 };
        if i == s {
            lemma_xor(b0, k, k);
            lemma_xor(k, 0, 0);
            lemma_xor(b0, 0, 0);
        } else {
            let c = if (s as int) < n - 1 { k } else { 0u64 };
            lemma_xor(b0, c, t);
            lemma_xor(b0, t, c);
            lemma_xor(c, t, 0);
        }
    }
}

/// Replacing bitboard `q` replaces its key sum in the key sum of all pieces.
pub proof fn lemma_pieces_keys_update(pb: [u64; 12], q: int, v: u64, n: int)
    requires
        0 <= q < 12,
        n <= 12,
    ensures
        pieces_keys(spec_array_update(pb, q, v), n) == if n <= q {
            pieces_keys(pb, n)
        } else {
            pieces_keys(pb, n) ^ (board_keys(pb[q], q, 64) ^ board_keys(v, q, 64))
        },
    decreases n,
{
    let pb2 = spec_array_update(pb, q, v);
    assert(pb2@ == pb@.update(q, v));
    if n > 0 {
        lemma_pieces_keys_update(pb, q, v, n - 1);
        let p0 = pieces_keys(pb, n - 1);
        let bk = board_keys(pb[n - 1], n - 1, 64);
        let bq = board_keys(pb[q], q, 64);
        let bv = board_keys(v, q, 64);
        let d = bq ^ bv;
        if n - 1 == q {
            assert(pb2[q] == v);
            lemma_xor(p0, bq, d);
            lemma_xor(bq, bq, bv);
            lemma_xor(bv, 0, 0);
        } else if n - 1 > q {
            assert(pb2[n - 1] == pb[n - 1]);
            lemma_xor(p0, d, bk);
            lemma_xor(p0, bk, d);
            lemma_xor(d, bk, 0);
        } else {
            assert(pb2[n - 1] == pb[n - 1]);
        }
    }
}

/// Toggling square `s` of bitboard `q` toggles that piece-square key in the key sum.
pub proof fn lemma_pieces_keys_toggle(pb: [u64; 12], q: int, s: u64)
    requires
        0 <= q < 12,
        s < 64,
    ensures
        pieces_keys(spec_array_update(pb, q, pb[q] ^ single(s)), 12) == pieces_keys(pb, 12)
            ^ spec_piece_key(q, s as int),
{
    lemma_pieces_keys_update(pb, q, pb[q] ^ single(s), 12);
    lemma_board_keys_toggle(pb[q], q, s, 64);
    let b0 = board_keys(pb[q], q, 64);
    let k = spec_piece_key(q, s as int);
    lemma_xor(b0, b0, k);
    lemma_xor(k, 0, 0);
}

/// Toggling two squares of bitboard `q` toggles both piece-square keys.
pub proof fn lemma_pieces_keys_toggle2(pb: [u64; 12], q: int, s1: u64, s2: u64)
    requires
        0 <= q < 12,
        s1 < 64,
        s2 < 64,
    ensures
        pieces_keys(spec_array_update(pb, q, (pb[q] ^ single(s1)) ^ single(s2)), 12) == pieces_keys(
            pb,
            12,
        ) ^ (spec_piece_key(q, s1 as int) ^ spec_piece_key(q, s2 as int)),
{
    let v = (pb[q] ^ single(s1)) ^ single(s2);
    lemma_pieces_keys_update(pb, q, v, 12);
    lemma_board_keys_toggle(pb[q], q, s1, 64);
    lemma_board_keys_toggle(pb[q] ^ single(s1), q, s2, 64);
    let b0 = board_keys(pb[q], q, 64);
    let k1 = spec_piece_key(q, s1 as int);
    let k2 = spec_piece_key(q, s2 as int);
    lemma_xor(b0, k1, k2);
    lemma_xor(b0, b0, k1 ^ k2);
    lemma_xor(k1 ^ k2, 0, 0);
}

/// Setting an absent square or clearing a present one toggles it.
pub proof fn lemma_toggle_forms(x: u64, s: u64)
    requires
        s < 64,
    ensures
        has_bit(x, s) ==> x & !single(s) == x ^ single(s),
        !has_bit(x, s) ==> x | single(s) == x ^ single(s),
{
    lemma_u64_squares(x, 0, s, 0);
}

/// Moving a piece from a present square to an absent one toggles both squares.
pub proof fn lemma_move_form(x: u64, i: u64, f: u64)
    requires
        i < 64,
        f < 64,
        i != f,
        has_bit(x, i),
        !has_bit(x, f),
    ensures
        (x & !single(i)) | single(f) == (x ^ single(i)) ^ single(f),
{
    lemma_toggle_forms(x, i);
    lemma_bit_xor(x, single(i), f);
    lemma_bit_single(i, f);
    lemma_toggle_forms(x ^ single(i), f);
}

} // verus!
