//! Commands of the Universal Chess Interface: splitting a command into fields, reading a
//! move in coordinate notation, setting up a position, and the search clock.
use vstd::prelude::*;
use std::time::{Duration, Instant};
use crate::engine::{Board, TTABLEMASK, listed_count, refreshed_of, lemma_refreshed_of, lemma_list_within_count, count_differences};
use crate::fen::{check_fen, fen_ok, fen_finish, fen_scan};
use crate::moves::{MoveStuff, uci_text, next_position, position_after};
use crate::movegen::{generate_moves, kings_present, kings_present_exec, move_listed, refreshed, pieces_apart, in_list};
use crate::ttable::{TableEntry, move_read, stored};
use crate::piececonstants::AttackTables;
use crate::search::{ttable_ok, SCORE_LIMIT, MAXPLY};

verus! {

/// The score stored for a position that has already occurred: an exact draw.
pub const CONTEMPT: i32 = 0;

/// The starting position.
pub fn start_fen() -> (s: &'static str)
    ensures
        s@ == start_fen_text(),
{
    "rnbqkbnr/pppppppp/8/8/8/8/PPPPPPPP/RNBQKBNR w KQkq - 0 1"
}

pub open spec fn start_fen_text() -> Seq<char> {
    "rnbqkbnr/pppppppp/8/8/8/8/PPPPPPPP/RNBQKBNR w KQkq - 0 1"@
}

/// The starting position as `parse_fen` reads it onto `b`.
#[verifier::opaque]
pub open spec fn start_position(b: Board) -> Board {
    fen_finish(fen_scan(b, start_fen_text(), start_fen_text().len() as int))
}

/// The fields of `s` between single spaces: `n` spaces give `n + 1` fields, some empty.
pub open spec fn split_spaces(s: Seq<char>) -> Seq<Seq<char>>
    decreases s.len(),
{
    if s.len() == 0 {
        seq![Seq::<char>::empty()]
    } else {
        let rest = split_spaces(s.drop_last());
        if s.last() == ' ' {
            rest.push(Seq::<char>::empty())
        } else {
            rest.update(rest.len() - 1, rest.last().push(s.last()))
        }
    }
}

pub open spec fn views(v: Seq<String>) -> Seq<Seq<char>> {
    v.map_values(|f: String| f@)
}

/// Splits `s` at every space.
pub fn split_fields(s: &str) -> (fields: Vec<String>)
    ensures
        views(fields@) == split_spaces(s@),
{
    let n = s.unicode_len();
    let mut fields: Vec<String> = Vec::new();
    let mut start: usize = 0;
    let mut i: usize = 0;
    assert(s@.subrange(0, 0) =~= Seq::<char>::empty());
    assert(views(fields@).push(s@.subrange(0, 0)) =~= seq![Seq::<char>::empty()]);
    while i < n
        invariant
            n == s@.len(),
            start <= i <= n,
            split_spaces(s@.subrange(0, i as int)) == views(fields@).push(
                s@.subrange(start as int, i as int),
            ),
        decreases n - i,
    {
        let c = s.get_char(i);
        let ghost pre = s@.subrange(0, i as int);
        let ghost cur = s@.subrange(start as int, i as int);
        assert(s@.subrange(0, i + 1).drop_last() =~= pre);
        assert(s@.subrange(0, i + 1).last() == c);
        if c == ' ' {
            let f = String::from_str(s.substring_char(start, i));
            let ghost before = fields@;
            fields.push(f);
            assert(views(fields@) =~= views(before).push(cur));
            start = i + 1;
            assert(s@.subrange(start as int, i + 1) =~= Seq::<char>::empty());
        } else {
            assert(s@.subrange(start as int, i + 1) =~= cur.push(c));
        }
        i = i + 1;
    }
    let f = String::from_str(s.substring_char(start, n));
    let ghost before = fields@;
    fields.push(f);
    assert(views(fields@) =~= views(before).push(s@.subrange(start as int, n as int)));
    assert(s@.subrange(0, n as int) =~= s@);
    fields
}

/// Whether `s` holds exactly the characters of `lit`.
fn is_word(s: &String, lit: &str) -> (r: bool)
    ensures
        r == (s@ == lit@),
{
    let a = s.as_str();
    let n = a.unicode_len();
    if n != lit.unicode_len() {
        return false;
    }
    let mut i: usize = 0;
    while i < n
        invariant
            n == a@.len(),
            n == lit@.len(),
            a@ == s@,
            i <= n,
            forall|j: int| 0 <= j < i ==> a@[j] == lit@[j],
        decreases n - i,
    {
        if a.get_char(i) != lit.get_char(i) {
            return false;
        }
        i = i + 1;
    }
    assert(a@ =~= lit@);
    true
}

/// The generated move whose coordinate notation is `input`, or 0 when there is none.
pub fn parse_move(tables: &AttackTables, input: String, board: &mut Board) -> (m: u16)
    requires
        tables.wf(),
        kings_present(*old(board)),
    ensures
        refreshed(*old(board), *final(board)),
        m != 0 ==> move_listed(*final(board), m) && uci_text(m) == input@,
        (forall|x: u16| #[trigger] move_listed(*final(board), x) ==> uci_text(x) != input@) ==> m == 0,
        pieces_apart(*old(board)) && listed_count(refreshed_of(*old(board))) < 256 ==> (m == 0 <==> forall|x: u16|
            #[trigger] move_listed(*final(board), x) ==> uci_text(x) != input@),
{
    let ghost b0 = *old(board);
    let mut moves = vec![0u16; 256];
    let count = generate_moves(tables, board, moves.as_mut_slice());
    proof {
        lemma_refreshed_of(b0, *board);
        crate::movegen::lemma_empty_move_unlisted(b0, *board);
        if pieces_apart(b0) {
            lemma_list_within_count(moves@, count as int, *board);
        }
    }
    let mut j: usize = 0;
    let mut found = false;
    let mut result: u16 = 0;
    while j < count && !found
        invariant
            refreshed(b0, *board),
            count <= moves@.len(),
            forall|k: int| 0 <= k < count ==> move_listed(*board, #[trigger] moves@[k]),
            found ==> move_listed(*board, result) && uci_text(result) == input@,
            !found ==> result == 0,
            !found ==> forall|k: int| 0 <= k < j ==> uci_text(#[trigger] moves@[k]) != input@,
            j <= count,
            count < moves@.len() ==> forall|x: u16| #[trigger] move_listed(*board, x) ==> in_list(moves@, 0, count as int, x),
        decreases count - j,
    {
        let m = moves[j];
        if m.to_uci() == input {
            found = true;
            result = m;
        }
        j = j + 1;
    }
    proof {
        if !found && count < moves@.len() {
            assert forall|x: u16| #[trigger] move_listed(*board, x) implies uci_text(x) != input@ by {
                let k = choose|k: int| 0 <= k < count && #[trigger] moves@[k] == x;
            }
        }

    }
    result
}

/// The FEN text of a `position fen` command: fields 2 up to `k`, joined by single spaces.
pub open spec fn fen_join(f: Seq<Seq<char>>, k: int) -> Seq<char>
    decreases k,
{
    if k <= 3 {
        f[2]
    } else {
        fen_join(f, k - 1) + " "@ + f[k - 1]
    }
}

/// A `position` command that sets nothing up: it names no position, names neither
/// `startpos` nor `fen` with six fields, or holds a FEN that cannot be read.
pub open spec fn position_refused(b: Board, f: Seq<Seq<char>>) -> bool {
    ||| f.len() < 2
    ||| f[1] != "startpos"@ && !(f[1] == "fen"@ && f.len() >= 8)
    ||| f[1] == "startpos"@ && !fen_ok(b, start_fen_text())
    ||| f[1] == "fen"@ && f.len() >= 8 && !fen_ok(b, fen_join(f, 8))
}

/// The board that a `position` command sets up before its moves.
pub open spec fn set_up(b: Board, f: Seq<Seq<char>>) -> Board {
    if f[1] == "startpos"@ {
        start_position(b)
    } else {
        fen_finish(fen_scan(b, fen_join(f, 8), fen_join(f, 8).len() as int))
    }
}

/// The field of a `position` command that holds its first move: the one after the word
/// that follows the position.
pub open spec fn first_move_field(f: Seq<Seq<char>>) -> int {
    if f[1] == "startpos"@ {
        3
    } else {
        9
    }
}

/// `b2` is `b` after the generated move that `text` names.
pub open spec fn command_played(b: Board, text: Seq<char>, b2: Board) -> bool {
    &&& kings_present(b)
    &&& exists|m: u16| #[trigger] parse_result(refreshed_of(b), text, m) && position_after(refreshed_of(b), m) == Some(b2)
}

/// `text` names no move that can be played on `b`, and `b2` is what is left: `b` itself
/// when a king is missing, else `b` refreshed.
pub open spec fn command_stuck(b: Board, text: Seq<char>, b2: Board) -> bool {
    ||| !kings_present(b) && b2 == b
    ||| kings_present(b) && b2 == refreshed_of(b) && exists|m: u16|
        #[trigger] parse_result(refreshed_of(b), text, m) && position_after(refreshed_of(b), m) is None
}

/// Each board of `bs` is the one before it after the move of the next field of `f`, the
/// fields read from `first` on.
pub open spec fn moves_played(bs: Seq<Board>, f: Seq<Seq<char>>, first: int) -> bool {
    forall|k: int| 0 <= k < bs.len() - 1 ==> #[trigger] command_played(bs[k], f[first + k], bs[k + 1])
}

/// The half-move count along the boards `bs`: 1 at the set-up board, one more after a
/// move that `is_repeat` lets through, and 1 again after any other move.
pub open spec fn count_along(bs: Seq<Board>) -> int
    decreases bs.len(),
{
    if bs.len() <= 1 {
        1
    } else if quiet_repeat(refreshed_of(bs[bs.len() - 2]), bs.last()) {
        count_along(bs.drop_last()) + 1
    } else {
        1
    }
}

/// The keys recorded while the boards `bs` were played: the set-up board's key, then the key
/// of each board a move was played from.
pub open spec fn keys_before(bs: Seq<Board>) -> Seq<u64> {
    seq![bs[0].key] + Seq::new((bs.len() - 1) as nat, |k: int| bs[k].key)
}

/// The table after the moves that led along `bs`, each emptying the entry of its new
/// position when that holds no playable move.
pub open spec fn table_along(t: Seq<TableEntry>, bs: Seq<Board>) -> Seq<TableEntry>
    decreases bs.len(),
{
    if bs.len() <= 1 {
        t
    } else {
        table_after_command(table_along(t, bs.drop_last()), bs.last())
    }
}

/// The table after the earlier positions since the last move that cannot be undone were
/// marked: for each `i` from 2 below `upto`, the key `past[len - i]`, unless it is the
/// current key `cur`, gets the repetition marker with the score `CONTEMPT`.
pub open spec fn mark_repeats(t: Seq<TableEntry>, past: Seq<u64>, cur: u64, upto: int) -> Seq<TableEntry>
    decreases upto,
{
    if upto <= 2 {
        t
    } else {
        let t1 = mark_repeats(t, past, cur, upto - 1);
        let pos = past[past.len() - (upto - 1)];
        let h = ((pos as usize) & TTABLEMASK) as int;
        if pos != cur {
            t1.update(h, stored(t1[h], pos, u16::MAX, usize::MAX, CONTEMPT))
        } else {
            t1
        }
    }
}

/// The board, half-move count and table after the moves of a `position` command: the set-up
/// board followed by the moves in turn, up to the first that cannot be played, which leaves
/// its board as `command_stuck` says and the table as the moves before it left it; without
/// such a move, the board after the last one, with the repetitions marked. The count is
/// `count_along` the boards played.
pub open spec fn moves_reach(
    b1: Board,
    f: Seq<Seq<char>>,
    last: Board,
    hc: int,
    t0: Seq<TableEntry>,
    t: Seq<TableEntry>,
) -> bool {
    let first = first_move_field(f);
    exists|bs: Seq<Board>|
        {
            &&& bs.len() >= 1
            &&& bs[0] == b1
            &&& #[trigger] moves_played(bs, f, first)
            &&& hc == count_along(bs)
            &&& if first + bs.len() - 1 >= f.len() {
                &&& last == bs.last()
                &&& t == mark_repeats(table_along(t0, bs), keys_before(bs), last.key, hc)
            } else {
                &&& command_stuck(bs.last(), f[first + bs.len() - 1], last)
                &&& t == table_along(t0, bs)
            }
        }
}

/// Sets up the position of a `position` command: `position startpos` or `position fen`
/// with six FEN fields, optionally followed by `moves` and moves in coordinate notation.
/// The half-move count becomes the number of positions since the last move that cannot
/// be undone; the earlier positions since then are marked in the transposition table as
/// repetitions scored `CONTEMPT`. A command that names no position, a FEN that cannot be
/// read, or a move that cannot be played ends the set-up where it stands.
#[verifier::rlimit(60)]
pub fn parse_position(
    tables: &AttackTables,
    input: String,
    board: &mut Board,
    halfcount: &mut usize,
    ttable: &mut Vec<TableEntry>,
)
    requires
        tables.wf(),
        old(ttable)@.len() == TTABLEMASK + 1,
    ensures
        final(ttable)@.len() == old(ttable)@.len(),
        ({
            let f = split_spaces(input@);
            f.len() == 2 && f[1] == "startpos"@ && fen_ok(*old(board), start_fen_text()) ==> {
                &&& *final(board) == start_position(*old(board))
                &&& *final(halfcount) == 1
            }
        }),
        ({
            let f = split_spaces(input@);
            f.len() == 8 && f[1] == "fen"@ && fen_ok(*old(board), fen_join(f, 8)) ==> {
                &&& *final(board) == fen_finish(fen_scan(*old(board), fen_join(f, 8), fen_join(f, 8).len() as int))
                &&& *final(halfcount) == 1
            }
        }),
        position_refused(*old(board), split_spaces(input@)) ==> {
            &&& *final(board) == *old(board)
            &&& *final(halfcount) == 0
            &&& final(ttable)@ == old(ttable)@
        },
        !position_refused(*old(board), split_spaces(input@)) ==> moves_reach(
            set_up(*old(board), split_spaces(input@)),
            split_spaces(input@),
            *final(board),
            *final(halfcount) as int,
            old(ttable)@,
            final(ttable)@,
        ),
        ttable_ok(old(ttable)@) ==> ttable_ok(final(ttable)@),
{
    *halfcount = 0;
    let fields = split_fields(input.as_str());
    assert("startpos"@ != "fen"@) by {
        reveal_strlit("startpos");
        reveal_strlit("fen");
        assert("startpos"@.len() == 8);
        assert("fen"@.len() == 3);
    }
    if fields.len() < 2 {
        return ;
    }
    let mut movei: usize = 2;
    let fen: String;
    if is_word(&fields[1], "startpos") {
        fen = String::from_str(start_fen());
    } else if is_word(&fields[1], "fen") && fields.len() >= 8 {
        let mut f = fields[2].clone();
        let mut k: usize = 3;
        proof {
            assert(fields@[2]@ == split_spaces(input@)[2]);
        }
        while k <= 7
            invariant
                fields@.len() >= 8,
                3 <= k <= 8,
                views(fields@) == split_spaces(input@),
                f@ == fen_join(split_spaces(input@), k as int),
            decreases 8 - k,
        {
            proof {
                assert(fields@[k as int]@ == split_spaces(input@)[k as int]);
            }
            f.append(" ");
            f.append(fields[k].as_str());
            k = k + 1;
        }
        movei = movei + 6;
        fen = f;
    } else {
        return ;
    }
    if !check_fen(board, fen.as_str()) {
        return ;
    }
    let ghost b0 = *board;
    board.parse_fen(fen);
    proof {
        reveal(start_position);
    }
    *halfcount = *halfcount + 1;
    let mut past: Vec<u64> = Vec::new();
    past.push(board.key);
    let ghost f = split_spaces(input@);
    let ghost mut bs: Seq<Board> = seq![*board];
    proof {
        assert(*board == set_up(b0, f));
        assert(first_move_field(f) == movei + 1);
        assert(moves_played(bs, f, movei + 1));
        if fields.len() <= movei {
            assert(moves_reach(set_up(b0, f), f, *board, *halfcount as int, old(ttable)@, ttable@));
        }
    }
    if fields.len() > movei {
        let mut k = movei + 1;
        while k < fields.len()
            invariant
                tables.wf(),
                ttable@.len() == TTABLEMASK + 1,
                old(ttable)@.len() == TTABLEMASK + 1,
                split_spaces(input@).len() == fields@.len(),
                2 <= movei < fields@.len(),
                movei + 1 <= k <= fields@.len(),
                1 <= *halfcount <= past@.len(),
                past@.len() == k - movei,
                !position_refused(b0, split_spaces(input@)),
                b0 == *old(board),
                split_spaces(input@)[1] == "fen"@ ==> movei == 8,
                f == split_spaces(input@),
                views(fields@) == f,
                first_move_field(f) == movei + 1,
                bs.len() == k - movei,
                bs[0] == set_up(b0, f),
                bs.last() == *board,
                moves_played(bs, f, movei + 1),
                *halfcount == count_along(bs),
                past@ == keys_before(bs),
                ttable@ == table_along(old(ttable)@, bs),
                ttable_ok(old(ttable)@) ==> ttable_ok(ttable@),
            decreases fields@.len() - k,
        {
            let ghost b_before = *board;
            let ghost t_before = ttable@;
            proof {
                assert(fields@[k as int]@ == f[k as int]);
            }
            let text = fields[k].clone();
            let played = play_command_move(tables, text, board, halfcount, &mut past, ttable);
            proof {
                if ttable_ok(old(ttable)@) && played {
                    lemma_command_table(t_before, *board);
                }
            }
            if !played {
                proof {
                    assert(command_stuck(b_before, f[k as int], *board));
                    assert(moves_reach(set_up(b0, f), f, *board, *halfcount as int, old(ttable)@, ttable@));
                }
                return ;
            }
            proof {
                let ghost bs0 = bs;
                assert(command_played(b_before, f[k as int], *board));
                bs = bs.push(*board);
                assert(bs.drop_last() == bs0);
                assert(bs[bs.len() - 2] == b_before);
                assert(keys_before(bs) == keys_before(bs0).push(b_before.key));
                assert forall|j: int| 0 <= j < bs.len() - 1 implies #[trigger] command_played(
                    bs[j],
                    f[movei + 1 + j],
                    bs[j + 1],
                ) by {
                    if j < bs.len() - 2 {
                        assert(command_played(bs0[j], f[movei + 1 + j], bs0[j + 1]));
                    }
                }
            }
            k = k + 1;
        }
        let length = past.len();
        let mut i: usize = 2;
        while i < *halfcount
            invariant
                ttable@.len() == TTABLEMASK + 1,
                old(ttable)@.len() == TTABLEMASK + 1,
                split_spaces(input@).len() == fields@.len(),
                2 <= movei < fields@.len(),
                *halfcount <= length,
                length == past@.len(),
                2 <= i,
                !position_refused(b0, split_spaces(input@)),
                b0 == *old(board),
                f == split_spaces(input@),
                bs.len() >= 1,
                bs[0] == set_up(b0, f),
                bs.last() == *board,
                moves_played(bs, f, first_move_field(f)),
                *halfcount == count_along(bs),
                first_move_field(f) + bs.len() - 1 >= f.len(),
                past@ == keys_before(bs),
                ttable@ == mark_repeats(table_along(old(ttable)@, bs), past@, board.key, i as int),
                i <= *halfcount || i == 2,
                ttable_ok(old(ttable)@) ==> ttable_ok(ttable@),
            decreases *halfcount - i,
        {
            let pos: u64 = past[length - i];
            if pos != board.key {
                let idx = (pos as usize) & TTABLEMASK;
                proof {
                    let p = pos as usize;
                    crate::bits::lemma_usize_bits(p, 0);
                }
                let ghost t0 = ttable@;
                let mut entry = ttable[idx];
                entry.set_value(pos, u16::MAX, usize::MAX, CONTEMPT);
                ttable.set(idx, entry);
                proof {
                    assert(pos == past@[past@.len() - i]);
                    if ttable_ok(old(ttable)@) {
                        assert forall|x: int| 0 <= x < ttable@.len() implies -SCORE_LIMIT <= (
                        #[trigger] ttable@[x]).score <= SCORE_LIMIT by {
                            if x != idx {
                                assert(ttable@[x] == t0[x]);
                            }
                        }
                    }
                }
            }
            i = i + 1;
        }
        proof {
            assert(ttable@ == mark_repeats(table_along(old(ttable)@, bs), keys_before(bs), board.key, *halfcount as int));
            assert(moves_played(bs, f, first_move_field(f)));
            assert(moves_reach(set_up(b0, f), f, *board, *halfcount as int, old(ttable)@, ttable@));
        }
    }
}

/// What `parse_move` may give for `text` on the refreshed board `b`: a nonzero move is a
/// generated move written `text`, and 0 comes whenever no generated move is written so.
pub open spec fn parse_result(b: Board, text: Seq<char>, m: u16) -> bool {
    &&& m != 0 ==> move_listed(b, m) && uci_text(m) == text
    &&& (forall|x: u16| #[trigger] move_listed(b, x) ==> uci_text(x) != text) ==> m == 0
}

/// `is_repeat`: no pawn moved and fewer than two piece boards changed.
pub open spec fn quiet_repeat(a: Board, b: Board) -> bool {
    a.pieceboards[0] == b.pieceboards[0] && a.pieceboards[6] == b.pieceboards[6]
        && count_differences(a, b, 12) < 2
}

/// The table after a played command move leads to `b`: an entry without a playable move
/// for `b`'s key is emptied.
pub open spec fn table_after_command(t: Seq<TableEntry>, b: Board) -> Seq<TableEntry> {
    let h = ((b.key as usize) & TTABLEMASK) as int;
    if move_read(t[h], b.key) is None {
        t.update(h, TableEntry { key: 0, bestmove: 0, depth: 1, score: 1 })
    } else {
        t
    }
}

/// Emptying an entry keeps a table's scores within the limit.
proof fn lemma_command_table(t: Seq<TableEntry>, b: Board)
    requires
        ttable_ok(t),
    ensures
        ttable_ok(table_after_command(t, b)),
{
    let h = ((b.key as usize) & TTABLEMASK) as int;
    crate::bits::lemma_usize_bits(b.key as usize, 0);
    let t2 = table_after_command(t, b);
    assert forall|x: int| 0 <= x < t2.len() implies -SCORE_LIMIT <= (#[trigger] t2[x]).score <= SCORE_LIMIT by {
        if x != h {
            assert(t2[x] == t[x]);
        }
    }
}

/// Plays the move of a `position` command: found among the generated moves, played, its
/// position recorded in `past`, the half-move count reset by a move that cannot be undone
/// and advanced, and a transposition entry without a playable move for the new position
/// cleared. False when the position lacks a king (the board unchanged) or the move cannot
/// be played (the board only refreshed); `past`, the count and the table are then unchanged.
fn play_command_move(
    tables: &AttackTables,
    text: String,
    board: &mut Board,
    halfcount: &mut usize,
    past: &mut Vec<u64>,
    ttable: &mut Vec<TableEntry>,
) -> (played: bool)
    requires
        tables.wf(),
        old(ttable)@.len() == TTABLEMASK + 1,
        1 <= *old(halfcount) <= old(past)@.len(),
        old(past)@.len() < usize::MAX,
    ensures
        final(ttable)@.len() == TTABLEMASK + 1,
        played ==> final(past)@.len() == old(past)@.len() + 1 && 1 <= *final(halfcount) <= final(past)@.len(),
        !kings_present(*old(board)) ==> !played && *final(board) == *old(board),
        kings_present(*old(board)) ==> exists|m: u16|
            #[trigger] parse_result(refreshed_of(*old(board)), text@, m) && played == (position_after(
                refreshed_of(*old(board)),
                m,
            ) is Some) && (played ==> Some(*final(board)) == position_after(refreshed_of(*old(board)), m)),
        kings_present(*old(board)) && !played ==> *final(board) == refreshed_of(*old(board)),
        played ==> final(past)@ == old(past)@.push(old(board).key),
        played ==> *final(halfcount) == if quiet_repeat(refreshed_of(*old(board)), *final(board)) {
            *old(halfcount) + 1
        } else {
            1
        },
        played ==> final(ttable)@ == table_after_command(old(ttable)@, *final(board)),
        !played ==> final(past)@ == old(past)@ && *final(halfcount) == *old(halfcount) && final(ttable)@
            == old(ttable)@,
{
    if !kings_present_exec(board) {
        return false;
    }
    let ghost b0 = *board;
    let m = parse_move(tables, text, board);
    proof {
        lemma_refreshed_of(b0, *board);
        assert(parse_result(*board, text@, m));
    }
    let temp = *board;
    match next_position(board, m) {
        Some(b) => {
            *board = b;
        },
        None => {
            return false;
        },
    }
    past.push(temp.key);
    if !temp.is_repeat(board) {
        *halfcount = 0;
    }
    let h = board.hash();
    let mut entry = ttable[h];
    if entry.read_move(board.key).is_none() {
        entry.clear_entry();
        ttable.set(h, entry);
    }
    *halfcount = *halfcount + 1;
    true
}

/// The value of a string of decimal digits.
pub open spec fn digits_value(s: Seq<char>) -> int
    decreases s.len(),
{
    if s.len() == 0 {
        0
    } else {
        digits_value(s.drop_last()) * 10 + (s.last() as int - '0' as int)
    }
}

/// Every character of `s` is a decimal digit.
pub open spec fn all_digits(s: Seq<char>) -> bool {
    forall|i: int| 0 <= i < s.len() ==> '0' <= #[trigger] s[i] <= '9'
}

/// `s` read as `str::parse` reads an unsigned integer no larger than `max`: an optional `+`,
/// then one or more digits whose value is at most `max`.
pub open spec fn numeral_upto(s: Seq<char>, max: int) -> Option<int> {
    let d = if s.len() > 0 && s[0] == '+' {
        s.drop_first()
    } else {
        s
    };
    if d.len() > 0 && all_digits(d) && digits_value(d) <= max {
        Some(digits_value(d))
    } else {
        None
    }
}

/// A string of digits is worth at least any of its prefixes.
proof fn lemma_digits_prefix(s: Seq<char>, k: int)
    requires
        all_digits(s),
        0 <= k <= s.len(),
    ensures
        0 <= digits_value(s.subrange(0, k)) <= digits_value(s),
    decreases s.len(),
{
    if s.len() > 0 {
        assert(all_digits(s.drop_last()));
        if k < s.len() {
            lemma_digits_prefix(s.drop_last(), k);
            assert(s.drop_last().subrange(0, k) =~= s.subrange(0, k));
        } else {
            assert(s.subrange(0, k) =~= s);
            lemma_digits_prefix(s.drop_last(), k - 1);
            assert(s.drop_last().subrange(0, k - 1) =~= s.drop_last());
        }
    }
}

/// Reads `s` as an unsigned integer of at most `max`, as `str::parse` does for an integer
/// type whose largest value is `max`.
pub fn parse_unsigned(s: &String, max: u64) -> (r: Option<u64>)
    ensures
        r matches Some(v) ==> numeral_upto(s@, max as int) == Some(v as int),
        r is None ==> numeral_upto(s@, max as int) is None,
{
    let a = s.as_str();
    let n = a.unicode_len();
    let mut start: usize = 0;
    if n > 0 && a.get_char(0) == '+' {
        start = 1;
    }
    let ghost d = if s@.len() > 0 && s@[0] == '+' { s@.drop_first() } else { s@ };
    proof {
        assert(d =~= s@.subrange(start as int, n as int));
    }
    if start >= n {
        return None;
    }
    let mut i: usize = start;
    while i < n
        invariant
            a@ == s@,
            n == s@.len(),
            start <= i <= n,
            d == s@.subrange(start as int, n as int),
            d == (if s@.len() > 0 && s@[0] == '+' { s@.drop_first() } else { s@ }),
            forall|j: int| start <= j < i ==> '0' <= #[trigger] s@[j] <= '9',
        decreases n - i,
    {
        let c = a.get_char(i);
        if c < '0' || c > '9' {
            proof {
                assert(d[i - start] == c);
                assert(!all_digits(d)) by {
                    assert(!('0' <= d[i - start] <= '9'));
                }
            }
            return None;
        }
        i = i + 1;
    }
    proof {
        assert forall|j: int| 0 <= j < d.len() implies '0' <= #[trigger] d[j] <= '9' by {
            assert(d[j] == s@[start + j]);
        }
    }
    let mut acc: u64 = 0;
    i = start;
    while i < n
        invariant
            a@ == s@,
            n == s@.len(),
            start <= i <= n,
            d == s@.subrange(start as int, n as int),
            d == (if s@.len() > 0 && s@[0] == '+' { s@.drop_first() } else { s@ }),
            all_digits(d),
            acc as int == digits_value(d.subrange(0, i - start)),
            acc <= max,
        decreases n - i,
    {
        let c = a.get_char(i);
        let ghost p = d.subrange(0, i + 1 - start);
        proof {
            assert(p.drop_last() =~= d.subrange(0, i - start));
            assert(p.last() == c);
            assert(d[i - start] == c);
        }
        let digit = (c as u32 - '0' as u32) as u64;
        proof {
            assert(digits_value(p) == acc * 10 + digit);
        }
        if digit > max || acc > (max - digit) / 10 {
            proof {
                if digit <= max {
                    assert(acc * 10 + digit > max) by (nonlinear_arith)
                        requires
                            acc > (max - digit) / 10,
                            digit <= max,
                    ;
                }
                lemma_digits_prefix(d, i + 1 - start);
            }
            return None;
        }
        proof {
            assert(acc * 10 + digit <= max) by (nonlinear_arith)
                requires
                    acc <= (max - digit) / 10,
                    digit <= max,
            ;
        }
        acc = acc * 10 + digit;
        i = i + 1;
    }
    proof {
        assert(d.subrange(0, n - start) =~= d);
    }
    Some(acc)
}

/// What a `go` command asks for: a depth and, when the time counts, a limit in milliseconds.
/// `go depth n` searches `n` plies (at most `MAXPLY`) without a time limit; `go movetime t`
/// searches to `MAXPLY` plies for `t` milliseconds; `go wtime w btime b ...` searches to
/// `MAXPLY` plies for a thirtieth of the clock of the side to move; anything else searches
/// 10 plies without a time limit. `None` when a number is missing or cannot be read.
pub open spec fn go_request(f: Seq<Seq<char>>, white: bool) -> Option<(usize, Option<u64>)> {
    if f.len() < 2 {
        None
    } else if f[1] == "depth"@ {
        if f.len() < 3 {
            None
        } else {
            match numeral_upto(f[2], MAXPLY as int) {
                Some(v) => Some((v as usize, None)),
                None => None,
            }
        }
    } else if f[1] == "movetime"@ {
        if f.len() < 3 {
            None
        } else {
            match numeral_upto(f[2], u64::MAX as int) {
                Some(v) => Some((MAXPLY, Some(v as u64))),
                None => None,
            }
        }
    } else if f[1] == "wtime"@ {
        let k = if white {
            2int
        } else {
            4int
        };
        if f.len() <= k {
            None
        } else {
            match numeral_upto(f[k], u64::MAX as int) {
                Some(v) => Some((MAXPLY, Some((v / 30) as u64))),
                None => None,
            }
        }
    } else {
        Some((10, None))
    }
}

/// Reads a `go` command, for the side to move white when `white`.
pub fn go_limits(input: &str, white: bool) -> (r: Option<(usize, Option<u64>)>)
    ensures
        r == go_request(split_spaces(input@), white),
{
    let fields = split_fields(input);
    let ghost f = split_spaces(input@);
    if fields.len() < 2 {
        return None;
    }
    proof {
        assert(fields@[1]@ == f[1]);
    }
    if is_word(&fields[1], "depth") {
        if fields.len() < 3 {
            return None;
        }
        proof {
            assert(fields@[2]@ == f[2]);
        }
        match parse_unsigned(&fields[2], MAXPLY as u64) {
            Some(v) => Some((v as usize, None)),
            None => None,
        }
    } else if is_word(&fields[1], "movetime") {
        if fields.len() < 3 {
            return None;
        }
        proof {
            assert(fields@[2]@ == f[2]);
        }
        match parse_unsigned(&fields[2], u64::MAX) {
            Some(v) => Some((MAXPLY, Some(v))),
            None => None,
        }
    } else if is_word(&fields[1], "wtime") {
        let k: usize = if white { 2 } else { 4 };
        if fields.len() <= k {
            return None;
        }
        proof {
            assert(fields@[k as int]@ == f[k as int]);
        }
        match parse_unsigned(&fields[k], u64::MAX) {
            Some(v) => Some((MAXPLY, Some(v / 30))),
            None => None,
        }
    } else {
        Some((10, None))
    }
}

/// `std::time::Instant`, the start time the search carries along; opaque here.
#[verifier::external_type_specification]
#[verifier::external_body]
pub struct ExInstant(Instant);

/// `Instant::elapsed`: the time since `start`. It depends on the clock; nothing is stated.
#[verifier::external_body]
pub(crate) fn elapsed_since(start: &Instant) -> Duration {
    start.elapsed()
}

/// `Instant::now`: the current time. It depends on the clock; nothing is stated.
#[verifier::external_body]
pub(crate) fn now() -> Instant {
    Instant::now()
}

/// `Duration::as_millis`: the whole milliseconds of `d`. `Duration` is opaque to Verus (vstd
/// gives it no view), so nothing is stated of the result.
#[verifier::external_body]
pub(crate) fn millis_of(d: &Duration) -> u128 {
    d.as_millis()
}

/// Stops the search once `elapsed` milliseconds have reached `limit`; a stopped search stays
/// stopped.
pub fn communicate(stopped: &mut bool, elapsed: u128, limit: u64)
    ensures
        *final(stopped) == (*old(stopped) || elapsed >= limit),
{
    if elapsed >= limit as u128 {
        *stopped = true;
    }
}

/// Reads the clock and stops the search once `timelimit` milliseconds (if any) have passed
/// since `starttime`. Without a time limit the flag is left as it is.
pub fn check_clock(stopped: &mut bool, starttime: &Instant, timelimit: Option<u64>)
    ensures
        *old(stopped) ==> *final(stopped),
        timelimit is None ==> *final(stopped) == *old(stopped),
{
    match timelimit {
        Some(limit) => {
            let elapsed = millis_of(&elapsed_since(starttime));
            communicate(stopped, elapsed, limit);
        },
        None => {},
    }
}

} // verus!
