//! Bit-level model of a 64-square bitboard: membership of a square, the
//! lowest set square, population count, and the per-square lemmas the rest
//! of the crate reasons with.
use vstd::prelude::*;
use vstd::std_specs::bits::{u64_trailing_zeros, axiom_u64_trailing_zeros};

verus! {

/// Square `t` (0 = a8 ... 63 = h1) is set in bitboard `b`.
pub open spec fn has_bit(b: u64, t: u64) -> bool {
    (b >> t) & 1u64 == 1u64
}

/// The bitboard holding square `s` alone.
pub open spec fn single(s: u64) -> u64 {
    1u64 << s
}

/// Index of the lowest set square of `m` (64 when `m` is empty).
pub open spec fn lowest(m: u64) -> u64 {
    u64_trailing_zeros(m) as u64
}

/// `m` with its lowest set square removed.
pub open spec fn clear_low(m: u64) -> u64 {
    m & !single(lowest(m))
}

pub proof fn lemma_lowest(m: u64)
    requires
        m != 0,
    ensures
        lowest(m) < 64,
        has_bit(m, lowest(m)),
        forall|t: u64| t < lowest(m) ==> !#[trigger] has_bit(m, t),
        clear_low(m) < m,
{
    axiom_u64_trailing_zeros(m);
    let s = lowest(m);
    assert((m >> s) & 1u64 == 1u64);
    assert forall|t: u64| t < lowest(m) implies !#[trigger] has_bit(m, t) by {
        assert((m >> t) & 1u64 == 0u64);
    }
    lemma_u64_squares(m, 0, s, 0);
}

/// Number of set squares, counted by removing the lowest square one at a time.
pub open spec fn popcount(m: u64) -> nat
    decreases m,
{
    if m == 0 {
        0
    } else {
        proof {
            lemma_lowest(m);
        }
        1 + popcount(clear_low(m))
    }
}

/// `u64::count_ones` returns the number of set bits.
pub assume_specification[ u64::count_ones ](x: u64) -> (r: u32)
    ensures
        r as nat == popcount(x),
;

pub proof fn lemma_popcount_le_64(m: u64)
    ensures
        popcount(m) <= 64,
        popcount(m) == 0 <==> m == 0,
    decreases m,
{
    if m != 0 {
        lemma_lowest(m);
        lemma_popcount_le_64(clear_low(m));
        // the squares left after removing the lowest one all lie above it
        let l = lowest(m);
        assert forall|t: u64| t <= l implies !#[trigger] has_bit(clear_low(m), t) by {
            lemma_bit_pop(m, l, t);
        }
        lemma_popcount_bound_above(clear_low(m), l);
    }
}

/// A bitboard whose squares all lie strictly above `s` has at most `63 - s` squares.
pub proof fn lemma_popcount_bound_above(m: u64, s: u64)
    requires
        s < 64,
        forall|t: u64| t <= s ==> !#[trigger] has_bit(m, t),
    ensures
        popcount(m) + s + 1 <= 64,
    decreases m,
{
    if m != 0 {
        lemma_lowest(m);
        let l = lowest(m);
        assert(l > s) by {
            if l <= s {
                assert(!has_bit(m, l));
            }
        }
        let c = clear_low(m);
        assert forall|t: u64| t <= l implies !#[trigger] has_bit(c, t) by {
            lemma_bit_pop(m, l, t);
            if t < l {
            }
        }
        lemma_popcount_bound_above(c, l);
    }
}

// ---------------------------------------------------------------------------
// The bit-vector facts the crate rests on, each group proved once by the
// bit-vector solver; the named lemmas below restate them over `has_bit`.

/// Algebraic laws of `&`, `|`, `^` and `!` on 64-bit words.
pub proof fn lemma_u64_laws(a: u64, b: u64, c: u64)
    by (bit_vector)
    ensures
        a & b == b & a,
        a | b == b | a,
        a ^ b == b ^ a,
        (a | b) | c == a | (b | c),
        (a & b) & c == a & (b & c),
        (a ^ b) ^ c == a ^ (b ^ c),
        a | 0u64 == a,
        0u64 | a == a,
        a & 0u64 == 0u64,
        0u64 & a == 0u64,
        a ^ 0u64 == a,
        0u64 ^ a == a,
        a ^ a == 0u64,
        a & 0xffff_ffff_ffff_ffffu64 == a,
        a & !0u64 == a,
        a & !a == 0u64,
        (a & b) & !b == 0u64,
        (a & b) & !a == 0u64,
        (a & !b) & !a == 0u64,
        (a & !b) & (a & b) == 0u64,
        (a | b != 0u64) == (a != 0u64 || b != 0u64),
        a != b ==> a ^ b != 0u64,
        a & !c == 0u64 ==> (a & !b) & !c == 0u64,
        b & !c == 0u64 ==> (a & b) & !(a & c) == 0u64,
        a & !b == 0u64 ==> a & b == a,
        (0u64 >> a) & 1u64 != 1u64,
        c >= 64 ==> (a >> c) & 1u64 != 1u64,
        0u64 << 8u64 == 0u64,
        0u64 >> 8u64 == 0u64,
{
}

/// Facts about the single squares `s` and `t` of 64-bit words.
pub proof fn lemma_u64_squares(a: u64, b: u64, s: u64, t: u64)
    by (bit_vector)
    requires
        s < 64,
        t < 64,
    ensures
        (((1u64 << s) >> t) & 1u64 == 1u64) == (s == t),
        (((a | (1u64 << s)) >> t) & 1u64 == 1u64) == (((a >> t) & 1u64 == 1u64) || t == s),
        (((a & !(1u64 << s)) >> t) & 1u64 == 1u64) == (((a >> t) & 1u64 == 1u64) && t != s),
        (((a & b) >> t) & 1u64 == 1u64) == (((a >> t) & 1u64 == 1u64) && ((b >> t) & 1u64
            == 1u64)),
        (((a | b) >> t) & 1u64 == 1u64) == (((a >> t) & 1u64 == 1u64) || ((b >> t) & 1u64
            == 1u64)),
        (((a ^ b) >> t) & 1u64 == 1u64) == (((a >> t) & 1u64 == 1u64) != ((b >> t) & 1u64
            == 1u64)),
        ((!a >> t) & 1u64 == 1u64) == !((a >> t) & 1u64 == 1u64),
        (a & (1u64 << s) != 0u64) == ((a >> s) & 1u64 == 1u64),
        (a & (1u64 << s) != 0u64) == ((a >> s) % 2 == 1),
        (1u64 << s) != 0u64,
        (a >> s) & 1u64 == 1u64 ==> a & !(1u64 << s) < a,
        (a >> s) & 1u64 == 1u64 ==> a & !(1u64 << s) == a ^ (1u64 << s),
        (a >> s) & 1u64 != 1u64 ==> a | (1u64 << s) == a ^ (1u64 << s),
        a & !b == 0u64 && (a >> s) & 1u64 == 1u64 ==> (b >> s) & 1u64 == 1u64,
        (b >> s) & 1u64 == 1u64 ==> (1u64 << s) & !b == 0u64,
{
}

/// Facts about table indices: masking by the table size, mirroring a square, and the
/// promotion bit of a move's flags.
pub proof fn lemma_usize_bits(k: usize, e: u16)
    by (bit_vector)
    ensures
        k & 1048575usize <= 1048575usize,
        k < 64 ==> (k ^ 56usize) < 64,
        k < 64 ==> (k ^ 56usize) as u64 == (k as u64 ^ 56u64),
        ((e as usize) & 4usize) < 6,
        ((e as usize) & 4usize) == (e & 4u16) as usize,
{
}

pub proof fn lemma_bit_single(s: u64, t: u64)
    requires
        s < 64,
        t < 64,
    ensures
        has_bit(single(s), t) == (s == t),
{
    lemma_u64_squares(0, 0, s, t);
}

pub proof fn lemma_bit_set(a: u64, s: u64, t: u64)
    requires
        s < 64,
        t < 64,
    ensures
        has_bit(a | single(s), t) == (has_bit(a, t) || t == s),
{
    lemma_u64_squares(a, 0, s, t);
}

pub proof fn lemma_bit_pop(a: u64, s: u64, t: u64)
    requires
        s < 64,
        t < 64,
    ensures
        has_bit(a & !single(s), t) == (has_bit(a, t) && t != s),
{
    lemma_u64_squares(a, 0, s, t);
}

pub proof fn lemma_bit_and(a: u64, b: u64, t: u64)
    requires
        t < 64,
    ensures
        has_bit(a & b, t) == (has_bit(a, t) && has_bit(b, t)),
{
    lemma_u64_squares(a, b, 0, t);
}

pub proof fn lemma_bit_or(a: u64, b: u64, t: u64)
    requires
        t < 64,
    ensures
        has_bit(a | b, t) == (has_bit(a, t) || has_bit(b, t)),
{
    lemma_u64_squares(a, b, 0, t);
}

pub proof fn lemma_bit_xor(a: u64, b: u64, t: u64)
    requires
        t < 64,
    ensures
        has_bit(a ^ b, t) == (has_bit(a, t) != has_bit(b, t)),
{
    lemma_u64_squares(a, b, 0, t);
}

pub proof fn lemma_bit_not(a: u64, t: u64)
    requires
        t < 64,
    ensures
        has_bit(!a, t) == !has_bit(a, t),
{
    lemma_u64_squares(a, 0, 0, t);
}

pub proof fn lemma_bit_zero(t: u64)
    ensures
        !has_bit(0, t),
{
    lemma_u64_laws(t, 0, 0);
}

pub proof fn lemma_and_single(a: u64, s: u64)
    requires
        s < 64,
    ensures
        (a & single(s) != 0) == has_bit(a, s),
{
    lemma_u64_squares(a, 0, s, 0);
}

pub proof fn lemma_and_comm(a: u64, b: u64)
    ensures
        a & b == b & a,
        a | b == b | a,
{
    lemma_u64_laws(a, b, 0);
}

pub proof fn lemma_or_zero(a: u64)
    ensures
        a | 0u64 == a,
        0u64 | a == a,
        a & 0u64 == 0,
        a ^ 0u64 == a,
{
    lemma_u64_laws(a, 0, 0);
}

/// Two bitboards with the same squares are equal.
pub proof fn lemma_bits_ext(a: u64, b: u64)
    requires
        forall|t: u64| t < 64 ==> #[trigger] has_bit(a, t) == has_bit(b, t),
    ensures
        a == b,
{
    if a != b {
        let d = a ^ b;
        lemma_u64_laws(a, b, 0);
        lemma_lowest(d);
        let s = lowest(d);
        lemma_bit_xor(a, b, s);
        assert(has_bit(a, s) == has_bit(b, s));
    }
}

/// A bitboard with no set square is zero.
pub proof fn lemma_bits_empty(a: u64)
    requires
        forall|t: u64| t < 64 ==> !#[trigger] has_bit(a, t),
    ensures
        a == 0,
{
    if a != 0 {
        lemma_lowest(a);
    }
}

/// The bitboard of the squares below `n` that satisfy `p`.
pub open spec fn bb_upto(p: spec_fn(u64) -> bool, n: nat) -> u64
    decreases n,
{
    if n == 0 {
        0
    } else {
        let k = (n - 1) as u64;
        bb_upto(p, (n - 1) as nat) | (if p(k) { single(k) } else { 0u64 })
    }
}

/// The bitboard of all squares that satisfy `p`.
pub open spec fn bb_of(p: spec_fn(u64) -> bool) -> u64 {
    bb_upto(p, 64)
}

pub proof fn lemma_bb_upto(p: spec_fn(u64) -> bool, n: nat, t: u64)
    requires
        n <= 64,
        t < 64,
    ensures
        has_bit(bb_upto(p, n), t) == (t < n && p(t)),
    decreases n,
{
    if n == 0 {
        lemma_bit_zero(t);
    } else {
        let k = (n - 1) as u64;
        lemma_bb_upto(p, (n - 1) as nat, t);
        lemma_bit_or(bb_upto(p, (n - 1) as nat), (if p(k) { single(k) } else { 0u64 }), t);
        lemma_bit_single(k, t);
        lemma_bit_zero(t);
    }
}

/// The squares of `bb_of(p)` are exactly those that satisfy `p`.
pub proof fn lemma_bb_of(p: spec_fn(u64) -> bool)
    ensures
        forall|t: u64| t < 64 ==> #[trigger] has_bit(bb_of(p), t) == p(t),
{
    assert forall|t: u64| t < 64 implies #[trigger] has_bit(bb_of(p), t) == p(t) by {
        lemma_bb_upto(p, 64, t);
    }
}

/// A bitboard is `bb_of(p)` when its squares are exactly those satisfying `p`.
pub proof fn lemma_bb_of_eq(a: u64, p: spec_fn(u64) -> bool)
    requires
        forall|t: u64| t < 64 ==> #[trigger] has_bit(a, t) == p(t),
    ensures
        a == bb_of(p),
{
    lemma_bb_of(p);
    assert forall|t: u64| t < 64 implies #[trigger] has_bit(a, t) == has_bit(bb_of(p), t) by {}
    lemma_bits_ext(a, bb_of(p));
}

} // verus!
