//! Transposition table entries: a key, a best move, a depth and a score whose two low
//! bits tell an exact score (0), a lower bound (1) or an upper bound (3).
use vstd::prelude::*;
use crate::engine::TTABLEMASK;

verus! {

#[derive(Copy, Clone)]
pub struct TableEntry {
    pub key: u64,
    pub bestmove: u16,
    pub depth: usize,
    pub score: i32,
}

/// A stored move that can be played: neither empty nor the repetition marker.
pub open spec fn valid_move(m: u16) -> bool {
    m != 0 && m != u16::MAX
}

/// What `read_value` gives: the stored score when the entry is for `key` and was
/// searched at least `depth` deep.
pub open spec fn value_read(e: TableEntry, key: u64, depth: usize) -> Option<i32> {
    if key == e.key && depth <= e.depth {
        Some(e.score)
    } else {
        None
    }
}

/// What `read_move` gives: the stored move when the entry is for `key` and holds a
/// playable move.
pub open spec fn move_read(e: TableEntry, key: u64) -> Option<u16> {
    if e.key == key && valid_move(e.bestmove) {
        Some(e.bestmove)
    } else {
        None
    }
}

/// The entry after `set_value`: an entry holding the repetition marker stays; otherwise
/// a new key or a nonzero move replaces the move, and an exact score (low bits 0), a new
/// key or a depth at least the stored one replaces key, depth and score.
pub open spec fn stored(e: TableEntry, key: u64, m: u16, depth: usize, score: i32) -> TableEntry {
    if e.bestmove == u16::MAX {
        e
    } else {
        let bestmove = if key != e.key || m != 0 { m } else { e.bestmove };
        if score & 3 == 0 || key != e.key || depth >= e.depth {
            TableEntry { key, bestmove, depth, score }
        } else {
            TableEntry { bestmove, ..e }
        }
    }
}

impl TableEntry {
    /// An empty entry.
    pub fn new() -> (e: TableEntry)
        ensures
            e.key == 0,
            e.bestmove == 0,
            e.depth == 1,
            e.score == 1,
    {
        TableEntry { key: 0, bestmove: 0, depth: 1, score: 1 }
    }

    /// The stored score when the entry is for `key` and searched at least `depth` deep.
    pub fn read_value(&self, key: u64, depth: usize) -> (score: Option<i32>)
        ensures
            score == value_read(*self, key, depth),
    {
        if key == self.key && depth <= self.depth {
            return Some(self.score);
        } else {
            return None;
        }
    }

    /// The stored best move when the entry is for `key` and holds a playable move.
    pub fn read_move(&self, key: u64) -> (m: Option<u16>)
        ensures
            m == move_read(*self, key),
    {
        if self.key == key && self.bestmove != 0 && self.bestmove != u16::MAX {
            return Some(self.bestmove);
        } else {
            return None;
        }
    }

    /// Stores a search result. An entry whose move is the repetition marker is never
    /// replaced; a new key or a nonzero move replaces the move; an exact score, a new key
    /// or a depth at least the stored one replaces key, depth and score.
    pub fn set_value(&mut self, key: u64, m: u16, depth: usize, score: i32)
        ensures
            *final(self) == stored(*old(self), key, m, depth, score),
    {
        let exactscore = score & 3 == 0;
        if self.bestmove == u16::MAX {
            return;
        }
        if key != self.key || m != 0 {
            self.bestmove = m;
        }
        if exactscore || key != self.key || depth >= self.depth {
            self.key = key;
            self.depth = depth;
            self.score = score;
        }
    }

    /// Forgets the stored move.
    pub fn clear_move(&mut self)
        ensures
            *final(self) == (TableEntry { bestmove: 0, ..*old(self) }),
    {
        self.bestmove = 0;
    }

    /// Empties the entry.
    pub fn clear_entry(&mut self)
        ensures
            final(self).key == 0,
            final(self).bestmove == 0,
            final(self).depth == 1,
            final(self).score == 1,
    {
        self.key = 0;
        self.bestmove = 0;
        self.depth = 1;
        self.score = 1;
    }
}

/// The table index of a hash key.
pub fn hash(key: u64) -> (index: usize)
    ensures
        index == (key as usize) & TTABLEMASK,
        index <= TTABLEMASK,
{
    let k = key as usize;
    let index = k & TTABLEMASK;
    proof {
        crate::bits::lemma_usize_bits(k, 0);
    }
    index
}

/// Number of entries among the first thousand with a nonzero key: a rough fill measure.
pub open spec fn count_used(t: Seq<TableEntry>, n: int) -> int
    decreases n,
{
    if n <= 0 {
        0
    } else {
        count_used(t, n - 1) + (if t[n - 1].key != 0 { 1int } else { 0 })
    }
}

pub fn crude_full(ttable: &Vec<TableEntry>) -> (nonzero: u32)
    requires
        ttable.len() >= 1000,
    ensures
        nonzero == count_used(ttable@, 1000),
{
    let mut nonzero: u32 = 0;
    for i in 0..1000usize
        invariant
            ttable.len() >= 1000,
            nonzero == count_used(ttable@, i as int),
            nonzero <= i,
    {
        if ttable[i].key != 0 {
            nonzero += 1;
        }
    }
    nonzero
}

/// A read after a write: once a playable move is stored for `key` in an entry that does
/// not hold the repetition marker, reading the move for `key` gives it back; and when the
/// write replaced the score (an exact score, a new key, or a depth at least the stored one),
/// reading the value for `key` at the written depth or less gives the written score.
pub proof fn lemma_read_after_write(e: TableEntry, key: u64, m: u16, depth: usize, d: usize, score: i32)
    requires
        e.bestmove != u16::MAX,
    ensures
        valid_move(m) ==> move_read(stored(e, key, m, depth, score), key) == Some(m),
        (score & 3 == 0 || key != e.key || depth >= e.depth) && d <= depth ==> value_read(
            stored(e, key, m, depth, score),
            key,
            d,
        ) == Some(score),
{
}

/// An entry holding the repetition marker is never overwritten.
pub proof fn lemma_marker_stays(e: TableEntry, key: u64, m: u16, depth: usize, score: i32)
    requires
        e.bestmove == u16::MAX,
    ensures
        stored(e, key, m, depth, score) == e,
{
}

} // verus!
