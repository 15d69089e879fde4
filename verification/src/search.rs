//! Alpha-beta search: a principal-variation search (`negamax`), a null-window search
//! (`zerowindow`) and a capture search at the leaves (`quiescent`), with a transposition
//! table, null-move pruning, singular extensions, killer moves and a history table.
//!
//! Scores carry their bound in the two low bits: 0 exact, 1 a lower bound, 3 an upper
//! bound. Every score stays within `SCORE_LIMIT` of zero.
use vstd::prelude::*;
use std::time::{Duration, Instant};
use crate::engine::{Board, TTABLEMASK, is_draw, attackers, lowest_square, listed_count, refreshed_of, lemma_refreshed_of, lemma_list_within_count};
use crate::eval::{EvalWeights, draw_score, spec_draw_score, spec_evaluate};
use crate::moves::{Move, MoveStuff, next_position, null_move, position_after, after_null_move};
use crate::movegen::{kings_present, kings_present_exec, generate_quiets, refresh, refreshed, quiet_listed, in_list, capture_listed};
use crate::ordering::{pick_move, picker_ok};
use crate::piececonstants::AttackTables;
use crate::ttable::{TableEntry, hash, stored};
use crate::uci::{check_clock, now, elapsed_since};
use crate::eval::div_toward_zero;
use crate::movegen::{generate_moves, move_listed, pieces_apart};
use crate::ttable::{crude_full, valid_move, value_read, move_read};

verus! {

/// The deepest ply of a search.
pub const MAXPLY: usize = 64;

/// A mate is scored `4 * (MATESCORE + ply)` for the side that is mated.
pub const MATESCORE: i32 = -100000;

/// From this depth on, a node without a transposition move is searched one ply shallower.
pub const INTERNALREDUCTION: usize = 4;

/// The largest score in size.
pub const SCORE_LIMIT: i32 = 536870912;

/// The search's stacks: a position, a 256-entry move list and score list, and two killer
/// moves per ply, and a 64 by 64 history table per side.
pub open spec fn search_dims(
    ps: Seq<Board>,
    ms: Seq<Vec<u16>>,
    sc: Seq<Vec<i32>>,
    kt: Seq<Vec<u16>>,
    ht: Seq<Vec<Vec<usize>>>,
) -> bool {
    &&& ps.len() == MAXPLY
    &&& ms.len() == MAXPLY
    &&& sc.len() == MAXPLY
    &&& kt.len() == MAXPLY
    &&& ht.len() == 2
    &&& forall|p: int| 0 <= p < MAXPLY ==> (#[trigger] ms[p])@.len() == 256
    &&& forall|p: int| 0 <= p < MAXPLY ==> (#[trigger] sc[p])@.len() == 256
    &&& forall|p: int| 0 <= p < MAXPLY ==> (#[trigger] kt[p])@.len() == 2
    &&& forall|s: int| 0 <= s < 2 ==> (#[trigger] ht[s])@.len() == 64
    &&& forall|s: int, r: int| 0 <= s < 2 && 0 <= r < 64 ==> (#[trigger] ht[s]@[r])@.len() == 64
}

/// A transposition table of the right size whose scores are within the limit.
pub open spec fn ttable_ok(t: Seq<TableEntry>) -> bool {
    &&& t.len() == TTABLEMASK + 1
    &&& forall|i: int| 0 <= i < t.len() ==> -SCORE_LIMIT <= (#[trigger] t[i]).score <= SCORE_LIMIT
}

pub open spec fn in_limit(x: int) -> bool {
    -SCORE_LIMIT <= x <= SCORE_LIMIT
}

/// `x` held within the score limit.
pub open spec fn spec_clamp(x: int) -> int {
    if x < -SCORE_LIMIT {
        -SCORE_LIMIT as int
    } else if x > SCORE_LIMIT {
        SCORE_LIMIT as int
    } else {
        x
    }
}

fn clamp_score(x: i64) -> (r: i32)
    ensures
        r == spec_clamp(x as int),
        in_limit(r as int),
        r & 3 != 0 ==> r as int == x as int,
{
    proof {
        assert(-536870912i32 & 3 == 0 && 536870912i32 & 3 == 0) by (bit_vector);
    }
    if x < -(SCORE_LIMIT as i64) {
        -SCORE_LIMIT
    } else if x > SCORE_LIMIT as i64 {
        SCORE_LIMIT
    } else {
        x as i32
    }
}

/// The entry that `store` leaves: `stored`, with the move forgotten when `clear`.
pub open spec fn stored_then_cleared(
    e: TableEntry,
    key: u64,
    m: u16,
    depth: usize,
    score: i32,
    clear: bool,
) -> TableEntry {
    let s = stored(e, key, m, depth, score);
    if clear {
        TableEntry { bestmove: 0, ..s }
    } else {
        s
    }
}

/// Stores a result in the transposition table; with `clear`, the entry's move is cleared.
fn store(ttable: &mut Vec<TableEntry>, key: u64, m: u16, depth: usize, score: i32, clear: bool)
    requires
        ttable_ok(old(ttable)@),
        in_limit(score as int),
    ensures
        ttable_ok(final(ttable)@),
        final(ttable)@ == old(ttable)@.update(
            ((key as usize) & TTABLEMASK) as int,
            stored_then_cleared(old(ttable)@[((key as usize) & TTABLEMASK) as int], key, m, depth, score, clear),
        ),
{
    let h = hash(key);
    let mut entry = ttable[h];
    entry.set_value(key, m, depth, score);
    if clear {
        entry.clear_move();
    }
    ttable.set(h, entry);
    assert forall|i: int| 0 <= i < ttable@.len() implies -SCORE_LIMIT <= (#[trigger] ttable@[i]).score
        <= SCORE_LIMIT by {
        if i != h {
            assert(ttable@[i] == old(ttable)@[i]);
        }
    }
}

/// Sets `positionstack[ply + 1]` to the position after `m` from `positionstack[ply]`;
/// false, with nothing changed, when `m` cannot be played there.
fn child_position(positionstack: &mut Vec<Board>, ply: usize, m: u16) -> (played: bool)
    requires
        ply + 1 < old(positionstack)@.len(),
    ensures
        final(positionstack)@.len() == old(positionstack)@.len(),
        forall|j: int| 0 <= j < final(positionstack)@.len() && j != ply + 1 ==> final(positionstack)@[j]
            == old(positionstack)@[j],
        played == position_after(old(positionstack)@[ply as int], m) is Some,
        played ==> final(positionstack)@[ply + 1] == position_after(old(positionstack)@[ply as int], m)->0,
        !played ==> final(positionstack)@ == old(positionstack)@,
{
    let len = positionstack.len();
    match next_position(&positionstack[ply], m) {
        Some(b) => {
            positionstack.set(ply + 1, b);
            true
        },
        None => false,
    }
}

/// Sets `positionstack[ply + 1]` to `positionstack[ply]` with the other side to move.
fn null_child(positionstack: &mut Vec<Board>, ply: usize)
    requires
        ply + 1 < old(positionstack)@.len(),
    ensures
        final(positionstack)@.len() == old(positionstack)@.len(),
        forall|j: int| 0 <= j < final(positionstack)@.len() && j != ply + 1 ==> final(positionstack)@[j]
            == old(positionstack)@[j],
        final(positionstack)@[ply + 1] == after_null_move(old(positionstack)@[ply as int]),
{
    let len = positionstack.len();
    let mut b = positionstack[ply];
    null_move(&mut b);
    positionstack.set(ply + 1, b);
}

/// A search depth whose square, the history credit of a cut-off, fits in a `usize`.
pub open spec fn depth_ok(depth: usize) -> bool {
    depth * depth <= usize::MAX
}

/// Every depth up to a good one is good, and a good depth is below 2^32.
proof fn lemma_depths_ok(depth: usize)
    requires
        depth_ok(depth),
    ensures
        depth < 4294967296,
        forall|x: usize| x <= depth ==> #[trigger] depth_ok(x),
{
    assert(usize::MAX <= u64::MAX);
    if depth >= 4294967296 {
        assert(depth * depth >= 4294967296 * 4294967296) by (nonlinear_arith)
            requires
                depth >= 4294967296,
        ;
    }
    assert forall|x: usize| x <= depth implies #[trigger] depth_ok(x) by {
        assert(x * x <= depth * depth) by (nonlinear_arith)
            requires
                x <= depth,
        ;
    }
}

/// Makes `m` the first killer move of `ply`, the old first one the second, and credits
/// `m` in the history table of `side` with `depth * depth`, as far as a count can hold it.
fn reward_quiet(
    killertable: &mut Vec<Vec<u16>>,
    historytable: &mut Vec<Vec<Vec<usize>>>,
    ply: usize,
    side: usize,
    m: u16,
    depth: usize,
)
    requires
        ply < old(killertable)@.len(),
        side < old(historytable)@.len(),
        (old(killertable)@[ply as int])@.len() == 2,
        (old(historytable)@[side as int])@.len() == 64,
        forall|r: int| 0 <= r < 64 ==> (#[trigger] old(historytable)@[side as int]@[r])@.len() == 64,
        depth_ok(depth),
    ensures
        final(killertable)@.len() == old(killertable)@.len(),
        final(historytable)@.len() == old(historytable)@.len(),
        forall|p: int| 0 <= p < final(killertable)@.len() ==> (#[trigger] final(killertable)@[p])@.len()
            == old(killertable)@[p]@.len(),
        forall|s: int| 0 <= s < final(historytable)@.len() ==> (#[trigger] final(historytable)@[s])@.len()
            == old(historytable)@[s]@.len(),
        forall|s: int, r: int|
            0 <= s < final(historytable)@.len() && 0 <= r < final(historytable)@[s]@.len() ==> (
            #[trigger] final(historytable)@[s]@[r])@.len() == old(historytable)@[s]@[r]@.len(),
        final(killertable)@[ply as int]@ == seq![m, old(killertable)@[ply as int]@[0]],
{
    let k0 = killertable[ply][0];
    {
        let row = &mut killertable[ply];
        row.set(1, k0);
        row.set(0, m);
    }
    assert(killertable@[ply as int]@ =~= seq![m, k0]);
    let init = m.get_initial() as usize;
    let fin = m.get_final() as usize;
    let old_value = historytable[side][init][fin];
    let value = old_value.saturating_add(depth * depth);
    {
        let table = &mut historytable[side];
        let row = &mut table[init];
        row.set(fin, value);
    }
}

/// The search's stacks and tables are ready for a node at `ply`.
pub open spec fn node_ready(
    tables: AttackTables,
    weights: EvalWeights,
    ps: Seq<Board>,
    ms: Seq<Vec<u16>>,
    sc: Seq<Vec<i32>>,
    kt: Seq<Vec<u16>>,
    ht: Seq<Vec<Vec<usize>>>,
    tt: Seq<TableEntry>,
    ply: usize,
) -> bool {
    &&& tables.wf()
    &&& weights.wf()
    &&& search_dims(ps, ms, sc, kt, ht)
    &&& ttable_ok(tt)
    &&& ply < MAXPLY
}

/// A window bound rounded to the score grid: `x + 1` with its two low bits cleared.
pub open spec fn grid_floor(x: i32) -> int {
    ((((x as i64) + 1) as i64) & !3i64) as int
}

/// The node counter after one more node, as `saturating_add(1)` leaves it.
pub open spec fn count_step(c: usize) -> usize {
    if c < usize::MAX {
        (c + 1) as usize
    } else {
        c
    }
}

/// `b` is `a` with at most its move masks changed and its en passant target dropped: the
/// pieces, the side to move, the castling rights and the key are kept, and the en passant
/// target is kept or cleared.
pub open spec fn same_position(a: Board, b: Board) -> bool {
    &&& b.pieceboards == a.pieceboards
    &&& b.occupancies == a.occupancies
    &&& b.side == a.side
    &&& b.castle == a.castle
    &&& b.key == a.key
    &&& (b.enpassant == a.enpassant || b.enpassant == 0)
}

/// The side to move has no generated move: none that `move_listed` describes on the
/// refreshed board.
pub open spec fn nothing_to_play(b: Board) -> bool {
    forall|x: u16| !#[trigger] move_listed(refreshed_of(b), x)
}

/// The side to move has no generated capture.
pub open spec fn no_captures(b: Board) -> bool {
    forall|x: u16| !#[trigger] capture_listed(refreshed_of(b), x)
}

/// The score of a position without a move: mated when in check, else a draw.
pub open spec fn mate_or_draw(b: Board, ply: int) -> i32 {
    if side_in_check(b) {
        (4 * (MATESCORE + ply)) as i32
    } else {
        spec_draw_score(ply)
    }
}

/// A node that a full-width search searches move by move: both kings stand, the table holds
/// no move for it (so no singular extension), and null-move pruning cannot start (in check,
/// or too shallow).
pub open spec fn plain_node(b: Board, tt: Seq<TableEntry>, depth: usize) -> bool {
    &&& kings_present(b)
    &&& move_read(tt[hash_spec(b.key) as int], b.key) is None
    &&& (depth < 3 || side_in_check(b))
}

/// A plain node with no move to search, which a full-width search ends at once with
/// `mate_or_draw`.
pub open spec fn bare_node(b: Board, tt: Seq<TableEntry>, depth: usize) -> bool {
    &&& plain_node(b, tt, depth)
    &&& nothing_to_play(b)
}

/// The table after a node without a move stored its score with no move.
pub open spec fn bare_store(tt: Seq<TableEntry>, b: Board, depth: usize, score: i32) -> Seq<TableEntry> {
    tt.update(hash_spec(b.key) as int, stored_then_cleared(tt[hash_spec(b.key) as int], b.key, 0, depth, score, true))
}

/// What the capture search at a leaf (its first ply, `ply` below the last) is known to
/// score: 0 without both kings, the window's top when the evaluation reaches it, and
/// `alpha` when the evaluation lies far below the window.
pub open spec fn leaf_score(b: Board, w: EvalWeights, ply: int, alpha: int, beta: i32, score: i32) -> bool {
    let e = spec_evaluate(b, w, ply);
    &&& !kings_present(b) ==> score == 0
    &&& kings_present(b) && e >= grid_floor(beta) ==> score == spec_clamp(grid_floor(beta) + 1)
    &&& kings_present(b) && e < grid_floor(beta) && e + 3600 < grid_floor(alpha as i32) ==> score == alpha
}

/// Searches only captures, and all moves when in check at the first ply of the capture
/// search, from `positionstack[ply]` in the window (`alpha`, `beta`): the position's own
/// evaluation stands for quiet moves, and a position whose evaluation reaches the window's
/// top is cut off at once. A position without both kings scores 0.
#[verifier::rlimit(60)]
pub fn quiescent(
    tables: &AttackTables,
    weights: &EvalWeights,
    positionstack: &mut Vec<Board>,
    count: &mut usize,
    movestack: &mut Vec<Vec<u16>>,
    scores: &mut Vec<Vec<i32>>,
    ply: usize,
    qply: usize,
    alpha: i32,
    beta: i32,
    ttable: &mut Vec<TableEntry>,
    killertable: &mut Vec<Vec<u16>>,
    historytable: &mut Vec<Vec<Vec<usize>>>,
    stopped: &mut bool,
    starttime: Instant,
    timelimit: Option<u64>,
) -> (score: i32)
    requires
        node_ready(
            *tables,
            *weights,
            old(positionstack)@,
            old(movestack)@,
            old(scores)@,
            old(killertable)@,
            old(historytable)@,
            old(ttable)@,
            ply,
        ),
        alpha < i32::MAX,
        i32::MIN + 1 < beta < i32::MAX,
        qply <= MAXPLY,
    ensures
        in_limit(alpha as int) && in_limit(beta as int) ==> in_limit(score as int),
        in_limit(score as int) || score == alpha,
        search_dims(final(positionstack)@, final(movestack)@, final(scores)@, final(killertable)@, final(historytable)@),
        ttable_ok(final(ttable)@),
        *old(stopped) ==> *final(stopped),
        timelimit is None ==> *final(stopped) == *old(stopped),
        *final(count) >= *old(count),
        forall|k: int| 0 <= k < ply ==> final(positionstack)@[k] == old(positionstack)@[k],
        forall|k: int| 0 <= k < ply ==> final(movestack)@[k] == old(movestack)@[k],
        forall|k: int| 0 <= k < ply ==> final(scores)@[k] == old(scores)@[k],
        kings_present(old(positionstack)@[ply as int]) ==> kings_present(final(positionstack)@[ply as int]),
        !kings_present(old(positionstack)@[ply as int]) ==> score == 0,
        same_position(old(positionstack)@[ply as int], final(positionstack)@[ply as int]),
        *final(count) >= count_step(*old(count)),
        score & 3 == 3 ==> score == alpha || score == spec_clamp(grid_floor(alpha) - 1),
        score & 3 == 1 ==> score == alpha || score == spec_clamp(grid_floor(beta) + 1),
        final(ttable)@ == old(ttable)@,
        final(killertable)@ == old(killertable)@,
        final(historytable)@ == old(historytable)@,
        ({
            let b = old(positionstack)@[ply as int];
            let e = spec_evaluate(b, *weights, ply as int);
            let stand = e >= grid_floor(beta) && (!side_in_check(b) || qply == 0);
            &&& kings_present(b) && stand ==> score == spec_clamp(grid_floor(beta) + 1)
            &&& kings_present(b) && !stand && (e + 3600 < grid_floor(alpha) || ply == MAXPLY - 1) ==> score
                == alpha
            &&& kings_present(b) && !stand && !(e + 3600 < grid_floor(alpha)) && ply < MAXPLY - 1 && move_read(
                old(ttable)@[hash_spec(b.key) as int],
                b.key,
            ) is None && nothing_to_play(b) ==> score == mate_or_draw(b, ply as int)
            &&& kings_present(b) && e < grid_floor(beta) && !(e + 3600 < grid_floor(alpha)) && ply < MAXPLY - 1
                && move_read(old(ttable)@[hash_spec(b.key) as int], b.key) is None && !(side_in_check(b) && qply
                == 0) && no_captures(b) && !nothing_to_play(b) ==> score == spec_clamp(
                if e > grid_floor(alpha) {
                    e as int
                } else {
                    grid_floor(alpha) - 1
                },
            )
            &&& !kings_present(b) || stand || e + 3600 < grid_floor(alpha) || ply == MAXPLY - 1 ==> {
                &&& *final(count) == count_step(*old(count))
                &&& final(positionstack)@ == old(positionstack)@
                &&& final(movestack)@ == old(movestack)@
                &&& final(scores)@ == old(scores)@
            }
        }),
    decreases MAXPLY - ply, 0int, 0int,
{
    *count = count.saturating_add(1);
    let key = positionstack[ply].key;
    if (*count & 4095) == 0 {
        check_clock(stopped, &starttime, timelimit);
    }
    proof {
        assert(0i32 & 3 == 0) by (bit_vector);
        lemma_tag_bits(alpha as i64);
        lemma_tag_bits(beta as i64);
    }
    if !kings_present_exec(&positionstack[ply]) {
        return 0;
    }
    let in_check = positionstack[ply].is_king_attacked(tables);
    proof {
        assert(in_check == side_in_check(old(positionstack)@[ply as int]));
    }
    let eval = {
        let mut b = positionstack[ply];
        b.evaluate(tables, weights, ply) as i64
    };
    let cut: i64 = (beta as i64 + 1) & !3;
    let mut alpha2: i64 = (alpha as i64 + 1) & !3;
    proof {
        lemma_window(alpha as i64);
        lemma_window(beta as i64);
    }
    if eval >= cut && (!in_check || qply == 0) {
        return clamp_score(cut + 1);
    }
    let big_delta: i64 = 3600;
    if eval + big_delta < alpha2 || ply == MAXPLY - 1 {
        return alpha;
    }
    if eval > alpha2 {
        alpha2 = eval;
    }
    let tmove = ttable[hash(key)].read_move(key);
    let ghost nq = move_read(old(ttable)@[hash_spec(key) as int], key) is None && nothing_to_play(
        old(positionstack)@[ply as int],
    );
    proof {
        assert(hash_spec(key) == (key as usize) & TTABLEMASK);
    }
    let mut movephase: usize = match tmove {
        Some(m) => {
            if m.get_extra() & 4 != 0 {
                movestack[ply].set(0, m);
                0
            } else {
                1
            }
        },
        None => 1,
    };
    let side: usize = if positionstack[ply].side == Some(1) { 1 } else { 0 };
    let quiets = in_check && qply == 0;
    let ghost nc = move_read(old(ttable)@[hash_spec(key) as int], key) is None && no_captures(
        old(positionstack)@[ply as int],
    ) && !quiets;
    let ghost a2_0 = alpha2;
    let mut index: usize = 0;
    let mut i: usize = 0;
    let mut j: usize = 0;
    let mut totalmoves: usize = 0;
    loop
        invariant_except_break
            nq ==> movephase == 1 && positionstack@[ply as int] == old(positionstack)@[ply as int],
            nc ==> movephase == 1 && positionstack@[ply as int] == old(positionstack)@[ply as int],
        invariant
            nc == (move_read(old(ttable)@[hash_spec(key) as int], key) is None && no_captures(
                old(positionstack)@[ply as int],
            ) && !quiets),
            nc ==> j == 0 && alpha2 == a2_0 && (positionstack@[ply as int] == old(positionstack)@[ply as int]
                || positionstack@[ply as int] == refreshed_of(old(positionstack)@[ply as int])),
            nq == (move_read(old(ttable)@[hash_spec(key) as int], key) is None && nothing_to_play(
                old(positionstack)@[ply as int],
            )),
            key == old(positionstack)@[ply as int].key,
            nq ==> j == 0 && (positionstack@[ply as int] == old(positionstack)@[ply as int] || positionstack@[ply as int]
                == refreshed_of(old(positionstack)@[ply as int])),
            in_check == side_in_check(old(positionstack)@[ply as int]),
            node_ready(*tables, *weights, positionstack@, movestack@, scores@, killertable@, historytable@, ttable@, ply),
            ply + 1 < MAXPLY,
            side <= 1,
            kings_present(positionstack@[ply as int]),
            picker_ok(movephase, i, index, movestack@[ply as int]@, scores@[ply as int]@),
            alpha < i32::MAX,
            i32::MIN + 1 < beta < i32::MAX,
            -2147483656 <= alpha2 <= 2147483656,
            -2147483656 <= cut <= 2147483656,
            qply <= MAXPLY,
            j <= 1000000,
            *old(stopped) ==> *stopped,
            timelimit is None ==> *stopped == *old(stopped),
            *count >= *old(count),
            *count >= count_step(*old(count)),
            same_position(old(positionstack)@[ply as int], positionstack@[ply as int]),
            ttable@ == old(ttable)@,
            killertable@ == old(killertable)@,
            historytable@ == old(historytable)@,
            forall|k: int| 0 <= k < ply ==> positionstack@[k] == old(positionstack)@[k],
            forall|k: int| 0 <= k < ply ==> movestack@[k] == old(movestack)@[k],
            forall|k: int| 0 <= k < ply ==> scores@[k] == old(scores)@[k],
        decreases 6 - movephase, 256 - i,
    {
        let ghost phase0 = movephase;
        let m = {
            let pos = &mut positionstack[ply];
            let ml = &mut movestack[ply];
            let sl = &mut scores[ply];
            pick_move(
                tables,
                pos,
                ml.as_mut_slice(),
                sl.as_mut_slice(),
                &mut index,
                &mut totalmoves,
                &mut i,
                &mut movephase,
                &killertable[ply],
                &historytable[side],
                quiets,
                tmove,
            )
        };
        if m == 0 {
            break;
        }
        if j < 1000000 {
            j = j + 1;
        }
        if !child_position(positionstack, ply, m) {
            continue;
        }
        let child = quiescent(
            tables,
            weights,
            positionstack,
            count,
            movestack,
            scores,
            ply + 1,
            if qply < MAXPLY { qply + 1 } else { qply },
            -beta,
            clamp_score(-alpha2),
            ttable,
            killertable,
            historytable,
            stopped,
            starttime,
            timelimit,
        );
        let score = -(child as i64);
        if score > alpha2 {
            if score >= cut {
                alpha2 = beta as i64;
                break;
            }
            alpha2 = score;
        }
    }
    proof {
        if nc && !nothing_to_play(old(positionstack)@[ply as int]) {
            let b = old(positionstack)@[ply as int];
            crate::engine::lemma_refresh_again(b);
            assert(refreshed_of(positionstack@[ply as int]) == refreshed_of(b));
            let x = choose|x: u16| #[trigger] move_listed(refreshed_of(b), x);
            assert(!capture_listed(refreshed_of(b), x));
            assert(quiet_listed(refreshed_of(b), x));
        }
        if nq {
            let b = old(positionstack)@[ply as int];
            crate::engine::lemma_refresh_again(b);
            assert(refreshed_of(positionstack@[ply as int]) == refreshed_of(b));
            assert forall|x: u16| !#[trigger] quiet_listed(refreshed_of(b), x) by {
                assert(!move_listed(refreshed_of(b), x));
            }
        }
    }
    if j == 0 && (quiets || !has_quiets(tables, &mut positionstack[ply])) {
        if in_check {
            let k = MATESCORE + ply as i32;
            proof {
                assert(-200000 < k < 0 ==> (4 * k) as i32 & 3i32 == 0i32) by (bit_vector);
            }
            return 4 * k;
        } else {
            return draw_score(ply);
        }
    }
    let low = (alpha as i64 + 1) & !3;
    let result = if alpha2 == low {
        low - 1
    } else if alpha2 == beta as i64 {
        ((beta as i64 + 1) & !3) + 1
    } else {
        (alpha2 + 1) & !3
    };
    proof {
        lemma_tag_bits(alpha2);
        if nc {
            let e = eval;
            assert(e % 4 == 0 ==> ((e + 1) as i64 & !3i64) == e) by (bit_vector);
            assert(e % 4 == 0 && e == beta as i64 ==> ((beta as i64 + 1) as i64 & !3i64) == beta as i64) by (bit_vector);
        }
    }
    clamp_score(result)
}

/// The bound tags of scores on the grid: a rounded bound less one is tagged 3, plus one is
/// tagged 1, and the rounded bound itself 0.
proof fn lemma_tag_bits(x: i64)
    requires
        -1099511627776 < x < 1099511627776,
    ensures
        ((((x + 1) as i64 & !3i64) - 1) as i64) as i32 & 3i32 == 3i32,
        ((((x + 1) as i64 & !3i64) + 1) as i64) as i32 & 3i32 == 1i32,
        (((x + 1) as i64 & !3i64) as i32) & 3i32 == 0i32,
{
    assert(-1099511627776 < x < 1099511627776 ==> ((((x + 1) as i64 & !3i64) - 1) as i64) as i32 & 3i32 == 3i32)
        by (bit_vector);
    assert(-1099511627776 < x < 1099511627776 ==> ((((x + 1) as i64 & !3i64) + 1) as i64) as i32 & 3i32 == 1i32)
        by (bit_vector);
    assert(-1099511627776 < x < 1099511627776 ==> (((x + 1) as i64 & !3i64) as i32) & 3i32 == 0i32) by (bit_vector);
}

proof fn lemma_window(x: i64)
    requires
        -2147483648 <= x <= 2147483647,
    ensures
        x - 4 <= ((x + 1) as i64) & !3i64 <= x + 1,
{
    let y = (x + 1) as i64;
    assert(-2147483647 <= y <= 2147483648 ==> y - 5 <= y & !3i64 <= y) by (bit_vector);
}

/// Whether the side to move has a quiet move, with the masks refreshed.
pub fn has_quiets(tables: &AttackTables, board: &mut Board) -> (r: bool)
    requires
        tables.wf(),
        kings_present(*old(board)),
    ensures
        kings_present(*final(board)),
        refreshed(*old(board), *final(board)),
        final(board).pieceboards == old(board).pieceboards,
        final(board).occupancies == old(board).occupancies,
        final(board).side == old(board).side,
        final(board).castle == old(board).castle,
        final(board).key == old(board).key,
        r == exists|m: u16| #[trigger] quiet_listed(*final(board), m),
        *final(board) == refreshed_of(*old(board)),
        final(board).enpassant == old(board).enpassant || final(board).enpassant == 0,
{
    let ghost b0 = *board;
    refresh(tables, board);
    proof {
        lemma_refreshed_of(b0, *board);
        crate::movegen::lemma_refresh_ep_kept_or_dropped(b0);
    }
    let mut list = vec![0u16; 256];
    let n = generate_quiets(tables, board, list.as_mut_slice(), 0);
    proof {
        if n > 0 {
            assert(quiet_listed(*board, list@[0]));
        } else {
            assert forall|m: u16| !#[trigger] quiet_listed(*board, m) by {
                if quiet_listed(*board, m) {
                    assert(in_list(list@, 0, 0, m));
                }
            }
        }
    }
    n > 0
}

/// Both kings stand and the king of the side to move is attacked.
pub open spec fn side_in_check(b: Board) -> bool {
    let king = if b.side == Some(0u8) { 5int } else { 11int };
    &&& kings_present(b)
    &&& attackers(
        b,
        lowest_square(b.pieceboards[king]),
        if b.side == Some(0u8) { 1 } else { 0 },
        b.occupancies[2],
        false,
    ) != 0
}

/// Whether the side to move is in check; false when a king is missing.
fn in_check(tables: &AttackTables, board: &Board) -> (r: bool)
    requires
        tables.wf(),
    ensures
        r == side_in_check(*board),
{
    kings_present_exec(board) && board.is_king_attacked(tables)
}

/// The integer logarithm of `x` to base 2 (0 for 0 and 1).
pub open spec fn ilog2(x: int) -> int
    decreases x,
{
    if x <= 1 {
        0
    } else {
        1 + ilog2(x / 2)
    }
}

fn ilog2_exec(x: usize) -> (r: usize)
    ensures
        r == ilog2(x as int),
        r <= 64,
{
    proof {
        lemma_pow2_int_64();
        lemma_ilog2_small(x as int, 64);
    }
    let mut v = x;
    let mut r: usize = 0;
    while v > 1
        invariant
            r + ilog2(v as int) == ilog2(x as int),
            ilog2(x as int) <= 64,
        decreases v,
    {
        proof {
            lemma_ilog2_nonneg(v as int / 2);
        }
        v = v / 2;
        r = r + 1;
    }
    r
}

proof fn lemma_ilog2_nonneg(x: int)
    ensures
        ilog2(x) >= 0,
    decreases x,
{
    if x > 1 {
        lemma_ilog2_nonneg(x / 2);
    }
}

proof fn lemma_pow2_int_64()
    ensures
        pow2_int(64) == 0x1_0000_0000_0000_0000,
{
    reveal_with_fuel(pow2_int, 65);
}

proof fn lemma_ilog2_small(y: int, k: int)
    requires
        0 <= k,
        y < pow2_int(k),
    ensures
        ilog2(y) <= k,
    decreases y,
{
    if y > 1 {
        if k == 0 {
            assert(pow2_int(0) == 1);
        } else {
            assert(pow2_int(k) == 2 * pow2_int(k - 1));
            lemma_ilog2_small(y / 2, k - 1);
        }
    }
}

pub open spec fn pow2_int(k: int) -> int
    decreases k,
{
    if k <= 0 {
        1
    } else {
        2 * pow2_int(k - 1)
    }
}

/// How many plies a late quiet move is searched shallower: the product of the logarithms
/// of the depth and the move's number, halved, at least 1 and at most the depth.
pub open spec fn lmr_reduction(d: int, j: int) -> int {
    let r = ilog2(d) * ilog2(j) / 2;
    if r > d {
        if d < 1 {
            1
        } else {
            d
        }
    } else if r < 1 {
        1
    } else {
        r
    }
}

fn lmr(d: usize, j: usize) -> (r: usize)
    requires
        d >= 1,
    ensures
        r == lmr_reduction(d as int, j as int),
        1 <= r <= d,
{
    let a = ilog2_exec(d);
    let b = ilog2_exec(j);
    assert(a * b <= 4096) by (nonlinear_arith)
        requires
            a <= 64,
            b <= 64,
    ;
    let p = a * b / 2;
    if p > d {
        d
    } else if p < 1 {
        1
    } else {
        p
    }
}

/// The entries below `ply` of the stacks are as they were.
pub open spec fn below_kept(
    ps0: Seq<Board>,
    ms0: Seq<Vec<u16>>,
    sc0: Seq<Vec<i32>>,
    ps: Seq<Board>,
    ms: Seq<Vec<u16>>,
    sc: Seq<Vec<i32>>,
    ply: int,
) -> bool {
    &&& forall|k: int| 0 <= k < ply ==> #[trigger] ps[k] == ps0[k]
    &&& forall|k: int| 0 <= k < ply ==> #[trigger] ms[k] == ms0[k]
    &&& forall|k: int| 0 <= k < ply ==> #[trigger] sc[k] == sc0[k]
}

/// A null-window search from `positionstack[ply]` that tells whether the position scores at
/// least `beta`: the transposition table, a repetition, null-move pruning, internal
/// iterative reduction, a singular extension of the transposition move, and late-move
/// reductions of quiet moves. The move `exmove` is skipped. A position without both kings
/// scores 0.
pub fn zerowindow(
    tables: &AttackTables,
    weights: &EvalWeights,
    positionstack: &mut Vec<Board>,
    count: &mut usize,
    movestack: &mut Vec<Vec<u16>>,
    scores: &mut Vec<Vec<i32>>,
    depth: usize,
    ply: usize,
    beta: i32,
    ttable: &mut Vec<TableEntry>,
    halfcount: usize,
    killertable: &mut Vec<Vec<u16>>,
    historytable: &mut Vec<Vec<Vec<usize>>>,
    pruneflags: &mut (u8, bool),
    exmove: u16,
    stopped: &mut bool,
    starttime: Instant,
    timelimit: Option<u64>,
) -> (score: i32)
    requires
        node_ready(
            *tables,
            *weights,
            old(positionstack)@,
            old(movestack)@,
            old(scores)@,
            old(killertable)@,
            old(historytable)@,
            old(ttable)@,
            ply,
        ),
        i32::MIN + 1 < beta < i32::MAX,
        depth_ok(depth),
        old(pruneflags).0 <= 2,
    ensures
        in_limit(beta as int) ==> in_limit(score as int),
        in_limit(score as int) || score == beta,
        search_dims(final(positionstack)@, final(movestack)@, final(scores)@, final(killertable)@, final(historytable)@),
        ttable_ok(final(ttable)@),
        *old(stopped) ==> *final(stopped),
        timelimit is None ==> *final(stopped) == *old(stopped),
        *final(count) >= *old(count),
        final(pruneflags).0 == old(pruneflags).0,
        below_kept(old(positionstack)@, old(movestack)@, old(scores)@, final(positionstack)@, final(movestack)@, final(scores)@, ply as int),
        kings_present(old(positionstack)@[ply as int]) ==> kings_present(final(positionstack)@[ply as int]),
        ply == MAXPLY - 1 ==> score == 0 && *final(count) == count_step(*old(count)) && final(positionstack)@
            == old(positionstack)@ && final(movestack)@ == old(movestack)@ && final(scores)@ == old(scores)@
            && final(ttable)@ == old(ttable)@ && final(killertable)@ == old(killertable)@ && final(historytable)@
            == old(historytable)@ && *final(pruneflags) == *old(pruneflags),
        same_position(old(positionstack)@[ply as int], final(positionstack)@[ply as int]),
        *final(count) >= count_step(*old(count)),
        ply < MAXPLY - 1 && table_draw(old(positionstack)@, old(ttable)@, *old(pruneflags), ply as int, halfcount as int, false)
            ==> score == spec_draw_score(ply as int),
        ply < MAXPLY - 1 && !table_draw(old(positionstack)@, old(ttable)@, *old(pruneflags), ply as int, halfcount as int, false)
            && exmove == 0 && !old(pruneflags).1 && stored_score(old(positionstack)@, old(ttable)@, ply as int, depth) is Some
            && settles_null_window(stored_score(old(positionstack)@, old(ttable)@, ply as int, depth)->0, beta)
            ==> score == stored_score(old(positionstack)@, old(ttable)@, ply as int, depth)->0,
        ply < MAXPLY - 1 && depth == 0 && !table_draw(old(positionstack)@, old(ttable)@, *old(pruneflags), ply as int, halfcount as int, false)
            && !(exmove == 0 && !old(pruneflags).1 && stored_score(old(positionstack)@, old(ttable)@, ply as int, depth) is Some
            && settles_null_window(stored_score(old(positionstack)@, old(ttable)@, ply as int, depth)->0, beta))
            ==> leaf_score(old(positionstack)@[ply as int], *weights, ply as int, spec_clamp(beta - 4), beta, score),
        ply < MAXPLY - 1 && depth >= 1 && !*final(stopped) && !table_draw(old(positionstack)@, old(ttable)@, *old(pruneflags), ply as int, halfcount as int, false)
            && !(exmove == 0 && !old(pruneflags).1 && stored_score(old(positionstack)@, old(ttable)@, ply as int, depth) is Some
            && settles_null_window(stored_score(old(positionstack)@, old(ttable)@, ply as int, depth)->0, beta))
            && bare_node(old(positionstack)@[ply as int], old(ttable)@, depth)
            ==> score == mate_or_draw(old(positionstack)@[ply as int], ply as int)
            && final(ttable)@ == bare_store(old(ttable)@, old(positionstack)@[ply as int], depth, score),
        ply < MAXPLY - 1 && depth >= 1 && !*final(stopped) && !table_draw(old(positionstack)@, old(ttable)@, *old(pruneflags), ply as int, halfcount as int, false)
            && !(exmove == 0 && !old(pruneflags).1 && stored_score(old(positionstack)@, old(ttable)@, ply as int, depth) is Some
            && settles_null_window(stored_score(old(positionstack)@, old(ttable)@, ply as int, depth)->0, beta))
            && plain_node(old(positionstack)@[ply as int], old(ttable)@, depth)
            ==> score == spec_clamp(grid_floor(beta) + 1) || score == spec_clamp(grid_floor(beta) - 5)
            || score == mate_or_draw(old(positionstack)@[ply as int], ply as int),
    decreases MAXPLY - ply, depth, 1int,
{
    *count = count.saturating_add(1);
    if (*count & 4095) == 0 {
        check_clock(stopped, &starttime, timelimit);
    }
    let key = positionstack[ply].key;
    if ply == MAXPLY - 1 {
        return 0;
    }
    let tprobe = ttable[hash(key)];
    if tprobe.key != 0 && pruneflags.0 == 0 && is_draw(positionstack.as_slice(), ply, halfcount) {
        return draw_score(ply);
    }
    let tscore = tprobe.read_value(key, depth);
    let tmove = tprobe.read_move(key);
    proof {
        assert(in_limit(ttable@[hash_spec(key) as int].score as int));
    }
    match tscore {
        Some(score) => {
            if exmove == 0 && (match score & 3 {
                0 => true,
                1 => score >= beta,
                3 => score as i64 <= beta as i64 - 4,
                _ => false,
            }) && !pruneflags.1 {
                return score;
            }
        },
        None => {},
    }
    if depth == 0 {
        return quiescent(
            tables,
            weights,
            positionstack,
            count,
            movestack,
            scores,
            ply,
            0,
            clamp_score(beta as i64 - 4),
            beta,
            ttable,
            killertable,
            historytable,
            stopped,
            starttime,
            timelimit,
        );
    }
    if !kings_present_exec(&positionstack[ply]) {
        return 0;
    }
    proof {
        lemma_depths_ok(depth);
    }
    let ghost nm = bare_node(old(positionstack)@[ply as int], old(ttable)@, depth);
    let ghost pn = plain_node(old(positionstack)@[ply as int], old(ttable)@, depth);
    proof {
        assert(positionstack@ == old(positionstack)@ && ttable@ == old(ttable)@);
        assert(hash_spec(key) == (key as usize) & TTABLEMASK);
    }
    let mut cut: i64 = (beta as i64 + 1) & !3;
    proof {
        lemma_window(beta as i64);
    }
    let side: usize = if positionstack[ply].side == Some(1) { 1 } else { 0 };
    let kingattacked = positionstack[ply].is_king_attacked(tables);
    proof {
        assert(kingattacked == side_in_check(old(positionstack)@[ply as int]));
    }
    let own = positionstack[ply].occupancies[side];
    let pawns_king = positionstack[ply].pieceboards[side * 6] | positionstack[ply].pieceboards[side * 6 + 5];
    if pruneflags.0 < 2 && exmove == 0 && depth >= 3 && own != pawns_king && !kingattacked {
        null_child(positionstack, ply);
        pruneflags.0 = pruneflags.0 + 1;
        let child = zerowindow(
            tables,
            weights,
            positionstack,
            count,
            movestack,
            scores,
            depth.saturating_sub(4),
            ply + 1,
            clamp_score(4 - beta as i64),
            ttable,
            halfcount,
            killertable,
            historytable,
            pruneflags,
            0,
            stopped,
            starttime,
            timelimit,
        );
        pruneflags.0 = pruneflags.0 - 1;
        if -(child as i64) >= cut {
            return beta;
        }
    }
    let mut d = depth;
    let mut movephase: usize = match tmove {
        Some(m) => {
            movestack[ply].set(0, m);
            0
        },
        None => {
            if depth >= INTERNALREDUCTION {
                d = d - 1;
            }
            1
        },
    };
    let mut extended = false;
    let mut bestmove: u16 = 0;
    let mut index: usize = 0;
    let mut totalmoves: usize = 0;
    let mut i: usize = 0;
    let mut j: usize = 0;
    let ghost ps0 = old(positionstack)@;
    let ghost ms0 = old(movestack)@;
    let ghost sc0 = old(scores)@;
    loop
        invariant_except_break
            nm ==> movephase == 1 && positionstack@[ply as int] == old(positionstack)@[ply as int],
        invariant
            nm ==> j == 0 && ttable@ == old(ttable)@ && tmove is None,
            nm == bare_node(old(positionstack)@[ply as int], old(ttable)@, depth),
            pn == plain_node(old(positionstack)@[ply as int], old(ttable)@, depth),
            pn ==> tmove is None,
            cut == (((beta as i64 + 1) as i64) & !3i64) || cut == (((beta as i64 + 1) as i64) & !3i64) + 1,
            kingattacked == side_in_check(old(positionstack)@[ply as int]),
            node_ready(*tables, *weights, positionstack@, movestack@, scores@, killertable@, historytable@, ttable@, ply),
            ply + 1 < MAXPLY,
            side <= 1,
            1 <= depth < 4294967296,
            forall|x: usize| x <= depth ==> #[trigger] depth_ok(x),
            d <= depth + 1,
            !extended ==> d <= depth,
            depth >= 4 ==> d >= 1,
            d >= 1 || depth < INTERNALREDUCTION,
            kings_present(positionstack@[ply as int]),
            picker_ok(movephase, i, index, movestack@[ply as int]@, scores@[ply as int]@),
            i32::MIN + 1 < beta < i32::MAX,
            -2147483656 <= cut <= 2147483656,
            beta as i64 - 4 <= (((beta as i64 + 1) as i64) & !3i64) <= beta as i64 + 1,
            j <= 1000000,
            pruneflags.0 == old(pruneflags).0,
            old(pruneflags).0 <= 2,
            *old(stopped) ==> *stopped,
            timelimit is None ==> *stopped == *old(stopped),
            *count >= *old(count),
            *count >= count_step(*old(count)),
            same_position(old(positionstack)@[ply as int], positionstack@[ply as int]),
            below_kept(ps0, ms0, sc0, positionstack@, movestack@, scores@, ply as int),
            ps0 == old(positionstack)@,
            ms0 == old(movestack)@,
            sc0 == old(scores)@,
            tscore matches Some(t) ==> in_limit(t as int),
            !table_draw(ps0, old(ttable)@, *old(pruneflags), ply as int, halfcount as int, false),
            !(exmove == 0 && !old(pruneflags).1 && stored_score(ps0, old(ttable)@, ply as int, depth) is Some
                && settles_null_window(stored_score(ps0, old(ttable)@, ply as int, depth)->0, beta)),
        decreases 6 - movephase, 256 - i,
    {
        let ghost pos0 = positionstack@[ply as int];
        proof {
            if nm {
                assert(pos0 == old(positionstack)@[ply as int]);
                assert(forall|x: u16| !#[trigger] move_listed(refreshed_of(pos0), x));
                assert(movephase == 1);
            }
        }
        let m = {
            let pos = &mut positionstack[ply];
            let ml = &mut movestack[ply];
            let sl = &mut scores[ply];
            pick_move(
                tables,
                pos,
                ml.as_mut_slice(),
                sl.as_mut_slice(),
                &mut index,
                &mut totalmoves,
                &mut i,
                &mut movephase,
                &killertable[ply],
                &historytable[side],
                true,
                tmove,
            )
        };
        proof {
            if nm {
                assert(m == 0);
            }
        }
        if m == 0 {
            break;
        }
        if m == exmove {
            continue;
        }
        if j < 1000000 {
            j = j + 1;
        }
        let tm: u16 = match tmove {
            Some(t) => t,
            None => 0,
        };
        let ts: i32 = match tscore {
            Some(t) => t,
            None => 0,
        };
        if m == tm && exmove == 0 && depth >= 4 && ts & 3 == 1 {
            let singularbeta = clamp_score(ts as i64 - 1 - 4 * d as i64);
            let singled = d / 2;
            let score = zerowindow(
                tables,
                weights,
                positionstack,
                count,
                movestack,
                scores,
                singled,
                ply,
                singularbeta,
                ttable,
                halfcount.saturating_add(1),
                killertable,
                historytable,
                pruneflags,
                m,
                stopped,
                starttime,
                timelimit,
            );
            if score < singularbeta {
                if !extended {
                    d = d + 1;
                    extended = true;
                }
            } else if singularbeta >= beta {
                assert(below_kept(ps0, ms0, sc0, positionstack@, movestack@, scores@, ply as int));
                return singularbeta;
            }
        }
        if !child_position(positionstack, ply, m) {
            continue;
        }
        let halfcount2 = if m & 61440 == 0 { halfcount.saturating_add(1) } else { 0 };
        let child_beta = clamp_score(4 - beta as i64);
        let mut score: i64;
        if d == 0 {
            score = 0;
        } else if d >= 2 && !kingattacked && m & 49152 == 0 && !in_check(tables, &positionstack[ply + 1]) {
            let r = lmr(d, j);
            score = -(zerowindow(
                tables,
                weights,
                positionstack,
                count,
                movestack,
                scores,
                d - r,
                ply + 1,
                child_beta,
                ttable,
                halfcount2,
                killertable,
                historytable,
                pruneflags,
                0,
                stopped,
                starttime,
                timelimit,
            ) as i64);
            if score > cut - 4 && score < cut {
                score = -(zerowindow(
                    tables,
                    weights,
                    positionstack,
                    count,
                    movestack,
                    scores,
                    d - 1,
                    ply + 1,
                    child_beta,
                    ttable,
                    halfcount2,
                    killertable,
                    historytable,
                    pruneflags,
                    0,
                    stopped,
                    starttime,
                    timelimit,
                ) as i64);
            }
        } else {
            score = -(zerowindow(
                tables,
                weights,
                positionstack,
                count,
                movestack,
                scores,
                d - 1,
                ply + 1,
                child_beta,
                ttable,
                halfcount2,
                killertable,
                historytable,
                pruneflags,
                0,
                stopped,
                starttime,
                timelimit,
            ) as i64);
        }
        if *stopped {
            assert(below_kept(ps0, ms0, sc0, positionstack@, movestack@, scores@, ply as int));
            return 0;
        }
        if score >= cut {
            cut = ((beta as i64 + 1) & !3) + 1;
            bestmove = m;
            if m & 16384 == 0 && !in_check(tables, &positionstack[ply + 1]) {
                reward_quiet(killertable, historytable, ply, side, m, depth);
            }
            break;
        }
    }
    if j == 0 {
        proof {
            assert(-200000 < MATESCORE + ply < 0 ==> (4 * (MATESCORE + ply as i32)) as i32 & 3i32 == 0i32)
                by (bit_vector);
            assert(0i32 & 3 == 0) by (bit_vector);
        }
        let score = if kingattacked {
            4 * (MATESCORE + ply as i32)
        } else {
            draw_score(ply)
        };
        store(ttable, key, 0, depth, score, true);
        return score;
    }
    if cut == (beta as i64 + 1) & !3 {
        cut = cut - 5;
    }
    let result = clamp_score(cut);
    store(ttable, key, bestmove, depth, result, false);
    result
}

/// The position at `ply` repeats one of the positions at most `halfcount` plies before it,
/// as `is_draw` looks for.
pub open spec fn repeated(ps: Seq<Board>, ply: int, halfcount: int) -> bool {
    exists|i: int|
        ply - (if ply < halfcount { ply } else { halfcount }) <= i < ply && #[trigger] ps[i].key == ps[ply].key
}

/// A draw that a search scores at once: the position at `ply` has a transposition entry, no
/// null move is pending, it is not the root when `not_root`, and fifty moves have passed or
/// it repeats an earlier position.
pub open spec fn table_draw(ps: Seq<Board>, tt: Seq<TableEntry>, pf: (u8, bool), ply: int, halfcount: int, not_root: bool) -> bool {
    &&& tt[hash_spec(ps[ply].key) as int].key != 0
    &&& (not_root ==> ply != 0)
    &&& pf.0 == 0
    &&& (halfcount >= 50 || repeated(ps, ply, halfcount))
}

/// The score stored for the position at `ply`, searched at least `depth` deep.
pub open spec fn stored_score(ps: Seq<Board>, tt: Seq<TableEntry>, ply: int, depth: usize) -> Option<i32> {
    value_read(tt[hash_spec(ps[ply].key) as int], ps[ply].key, depth)
}

/// A stored score that settles a null-window search against `beta`: exact, a lower bound
/// at least `beta`, or an upper bound below it.
pub open spec fn settles_null_window(s: i32, beta: i32) -> bool {
    let bound = s & 3;
    if bound == 0 {
        true
    } else if bound == 1 {
        s >= beta
    } else if bound == 3 {
        s as int <= beta - 4
    } else {
        false
    }
}

/// A stored score that settles a search in the window (`alpha`, `beta`), both rounded to the
/// score grid: exact, a lower bound at least the rounded `beta`, or an upper bound at most
/// the rounded `alpha`.
pub open spec fn settles_window(s: i32, alpha: i32, beta: i32) -> bool {
    let bound = s & 3;
    let cut = (((beta as i64 + 1) as i64) & !3i64) as int;
    let low = (((alpha as i64 + 1) as i64) & !3i64) as int;
    if bound == 0 {
        true
    } else if bound == 1 {
        s as int >= cut
    } else if bound == 3 {
        s as int <= low
    } else {
        false
    }
}

pub open spec fn hash_spec(key: u64) -> usize {
    (key as usize) & TTABLEMASK
}

/// The principal-variation search from `positionstack[ply]` in the window (`alpha`, `beta`):
/// the transposition table, a repetition, null-move pruning, a singular extension of the
/// transposition move, then every move searched with a null window and searched again with
/// the full window when it lands inside. The result is stored in the transposition table
/// with its bound; a quiet move that cuts off becomes a killer and gains history. The move
/// `exmove` is skipped. A position without both kings scores 0.
pub fn negamax(
    tables: &AttackTables,
    weights: &EvalWeights,
    positionstack: &mut Vec<Board>,
    count: &mut usize,
    movestack: &mut Vec<Vec<u16>>,
    scores: &mut Vec<Vec<i32>>,
    depth: usize,
    ply: usize,
    alpha: i32,
    beta: i32,
    ttable: &mut Vec<TableEntry>,
    halfcount: usize,
    killertable: &mut Vec<Vec<u16>>,
    historytable: &mut Vec<Vec<Vec<usize>>>,
    pruneflags: &mut (u8, bool),
    exmove: u16,
    stopped: &mut bool,
    starttime: Instant,
    timelimit: Option<u64>,
) -> (score: i32)
    requires
        node_ready(
            *tables,
            *weights,
            old(positionstack)@,
            old(movestack)@,
            old(scores)@,
            old(killertable)@,
            old(historytable)@,
            old(ttable)@,
            ply,
        ),
        alpha < i32::MAX,
        i32::MIN + 1 < beta < i32::MAX,
        depth_ok(depth),
        old(pruneflags).0 <= 2,
    ensures
        in_limit(alpha as int) && in_limit(beta as int) ==> in_limit(score as int),
        in_limit(score as int) || score == alpha,
        search_dims(final(positionstack)@, final(movestack)@, final(scores)@, final(killertable)@, final(historytable)@),
        ttable_ok(final(ttable)@),
        *old(stopped) ==> *final(stopped),
        timelimit is None ==> *final(stopped) == *old(stopped),
        *final(count) >= *old(count),
        final(pruneflags).0 == old(pruneflags).0,
        below_kept(old(positionstack)@, old(movestack)@, old(scores)@, final(positionstack)@, final(movestack)@, final(scores)@, ply as int),
        kings_present(old(positionstack)@[ply as int]) ==> kings_present(final(positionstack)@[ply as int]),
        ply == MAXPLY - 1 ==> score == 0 && *final(count) == count_step(*old(count)) && final(positionstack)@
            == old(positionstack)@ && final(movestack)@ == old(movestack)@ && final(scores)@ == old(scores)@
            && final(ttable)@ == old(ttable)@ && final(killertable)@ == old(killertable)@ && final(historytable)@
            == old(historytable)@ && *final(pruneflags) == *old(pruneflags),
        same_position(old(positionstack)@[ply as int], final(positionstack)@[ply as int]),
        *final(count) >= count_step(*old(count)),
        ply < MAXPLY - 1 && table_draw(old(positionstack)@, old(ttable)@, *old(pruneflags), ply as int, halfcount as int, true)
            ==> score == spec_draw_score(ply as int),
        ply < MAXPLY - 1 && !table_draw(old(positionstack)@, old(ttable)@, *old(pruneflags), ply as int, halfcount as int, true)
            && !old(pruneflags).1 && stored_score(old(positionstack)@, old(ttable)@, ply as int, depth) is Some
            && settles_window(stored_score(old(positionstack)@, old(ttable)@, ply as int, depth)->0, alpha, beta)
            ==> score == stored_score(old(positionstack)@, old(ttable)@, ply as int, depth)->0,
        ply < MAXPLY - 1 && depth == 0 && !table_draw(old(positionstack)@, old(ttable)@, *old(pruneflags), ply as int, halfcount as int, true)
            && !(!old(pruneflags).1 && stored_score(old(positionstack)@, old(ttable)@, ply as int, depth) is Some
            && settles_window(stored_score(old(positionstack)@, old(ttable)@, ply as int, depth)->0, alpha, beta))
            ==> leaf_score(old(positionstack)@[ply as int], *weights, ply as int, alpha as int, beta, score),
        ply < MAXPLY - 1 && depth >= 1 && !*final(stopped) && !table_draw(old(positionstack)@, old(ttable)@, *old(pruneflags), ply as int, halfcount as int, true)
            && !(!old(pruneflags).1 && stored_score(old(positionstack)@, old(ttable)@, ply as int, depth) is Some
            && settles_window(stored_score(old(positionstack)@, old(ttable)@, ply as int, depth)->0, alpha, beta))
            && bare_node(old(positionstack)@[ply as int], old(ttable)@, depth)
            ==> score == mate_or_draw(old(positionstack)@[ply as int], ply as int)
            && final(ttable)@ == bare_store(old(ttable)@, old(positionstack)@[ply as int], depth, score),
        ply < MAXPLY - 1 && depth >= 1 && !*final(stopped) && !table_draw(old(positionstack)@, old(ttable)@, *old(pruneflags), ply as int, halfcount as int, true)
            && !(!old(pruneflags).1 && stored_score(old(positionstack)@, old(ttable)@, ply as int, depth) is Some
            && settles_window(stored_score(old(positionstack)@, old(ttable)@, ply as int, depth)->0, alpha, beta))
            && plain_node(old(positionstack)@[ply as int], old(ttable)@, depth) ==> {
            &&& score & 3 == 3 ==> score == spec_clamp(grid_floor(alpha) - 1)
            &&& score & 3 == 1 ==> score == spec_clamp(grid_floor(beta) + 1)
        },
    decreases MAXPLY - ply, depth, 1int,
{
    *count = count.saturating_add(1);
    let key = positionstack[ply].key;
    if (*count & 4095) == 0 {
        check_clock(stopped, &starttime, timelimit);
    }
    if ply == MAXPLY - 1 {
        return 0;
    }
    let tprobe = ttable[hash(key)];
    if tprobe.key != 0 && ply != 0 && pruneflags.0 == 0 && is_draw(positionstack.as_slice(), ply, halfcount) {
        return draw_score(ply);
    }
    proof {
        lemma_window(alpha as i64);
        lemma_window(beta as i64);
        assert(in_limit(ttable@[hash_spec(key) as int].score as int));
    }
    let cut: i64 = (beta as i64 + 1) & !3;
    let mut alpha2: i64 = (alpha as i64 + 1) & !3;
    let tscore = tprobe.read_value(key, depth);
    let tmove = tprobe.read_move(key);
    match tscore {
        Some(score) => {
            if (match score & 3 {
                0 => true,
                1 => score as i64 >= cut,
                3 => score as i64 <= alpha2,
                _ => false,
            }) && !pruneflags.1 {
                return score;
            }
        },
        None => {},
    }
    pruneflags.1 = false;
    if depth == 0 || *stopped {
        return quiescent(
            tables,
            weights,
            positionstack,
            count,
            movestack,
            scores,
            ply,
            0,
            alpha,
            beta,
            ttable,
            killertable,
            historytable,
            stopped,
            starttime,
            timelimit,
        );
    }
    if !kings_present_exec(&positionstack[ply]) {
        return 0;
    }
    proof {
        lemma_depths_ok(depth);
    }
    let ghost nm = bare_node(old(positionstack)@[ply as int], old(ttable)@, depth);
    let ghost pn = plain_node(old(positionstack)@[ply as int], old(ttable)@, depth);
    proof {
        assert(positionstack@ == old(positionstack)@ && ttable@ == old(ttable)@);
        assert(hash_spec(key) == (key as usize) & TTABLEMASK);
    }
    let side: usize = if positionstack[ply].side == Some(1) { 1 } else { 0 };
    let kingattacked = positionstack[ply].is_king_attacked(tables);
    proof {
        assert(kingattacked == side_in_check(old(positionstack)@[ply as int]));
    }
    let own = positionstack[ply].occupancies[side];
    let pawns_king = positionstack[ply].pieceboards[side * 6] | positionstack[ply].pieceboards[side * 6 + 5];
    if pruneflags.0 < 2 && depth >= 3 && own != pawns_king && !kingattacked {
        null_child(positionstack, ply);
        pruneflags.0 = pruneflags.0 + 1;
        let child = zerowindow(
            tables,
            weights,
            positionstack,
            count,
            movestack,
            scores,
            depth.saturating_sub(4),
            ply + 1,
            clamp_score(-(alpha as i64)),
            ttable,
            halfcount.saturating_add(1),
            killertable,
            historytable,
            pruneflags,
            0,
            stopped,
            starttime,
            timelimit,
        );
        pruneflags.0 = pruneflags.0 - 1;
        if -(child as i64) >= cut {
            return clamp_score(((beta as i64 + 1) & !3) + 1);
        }
    }
    let mut d = depth;
    let mut movephase: usize = match tmove {
        Some(m) => {
            movestack[ply].set(0, m);
            0
        },
        None => 1,
    };
    let mut extended = false;
    let mut best: u16 = 0;
    let mut index: usize = 0;
    let mut totalmoves: usize = 0;
    let mut i: usize = 0;
    let mut j: usize = 0;
    let ghost ps0 = old(positionstack)@;
    let ghost ms0 = old(movestack)@;
    let ghost sc0 = old(scores)@;
    loop
        invariant_except_break
            nm ==> movephase == 1 && positionstack@[ply as int] == old(positionstack)@[ply as int],
        invariant
            nm ==> j == 0 && ttable@ == old(ttable)@ && tmove is None,
            nm == bare_node(old(positionstack)@[ply as int], old(ttable)@, depth),
            pn == plain_node(old(positionstack)@[ply as int], old(ttable)@, depth),
            pn ==> tmove is None,
            kingattacked == side_in_check(old(positionstack)@[ply as int]),
            node_ready(*tables, *weights, positionstack@, movestack@, scores@, killertable@, historytable@, ttable@, ply),
            ply + 1 < MAXPLY,
            side <= 1,
            1 <= depth < 4294967296,
            forall|x: usize| x <= depth ==> #[trigger] depth_ok(x),
            depth <= d <= depth + 1,
            !extended ==> d == depth,
            kings_present(positionstack@[ply as int]),
            picker_ok(movephase, i, index, movestack@[ply as int]@, scores@[ply as int]@),
            alpha < i32::MAX,
            i32::MIN + 1 < beta < i32::MAX,
            -2147483656 <= alpha2 <= 2147483656,
            -2147483656 <= cut <= 2147483656,
            beta as i64 - 4 <= (((beta as i64 + 1) as i64) & !3i64) <= beta as i64 + 1,
            alpha as i64 - 4 <= (((alpha as i64 + 1) as i64) & !3i64) <= alpha as i64 + 1,
            j <= 1000000,
            pruneflags.0 == old(pruneflags).0,
            old(pruneflags).0 <= 2,
            *old(stopped) ==> *stopped,
            timelimit is None ==> *stopped == *old(stopped),
            *count >= *old(count),
            *count >= count_step(*old(count)),
            same_position(old(positionstack)@[ply as int], positionstack@[ply as int]),
            below_kept(ps0, ms0, sc0, positionstack@, movestack@, scores@, ply as int),
            ps0 == old(positionstack)@,
            ms0 == old(movestack)@,
            sc0 == old(scores)@,
            tscore matches Some(t) ==> in_limit(t as int),
            !table_draw(ps0, old(ttable)@, *old(pruneflags), ply as int, halfcount as int, true),
            !(!old(pruneflags).1 && stored_score(ps0, old(ttable)@, ply as int, depth) is Some
                && settles_window(stored_score(ps0, old(ttable)@, ply as int, depth)->0, alpha, beta)),
        decreases 6 - movephase, 256 - i,
    {
        let ghost pos0 = positionstack@[ply as int];
        proof {
            if nm {
                assert(pos0 == old(positionstack)@[ply as int]);
                assert(forall|x: u16| !#[trigger] move_listed(refreshed_of(pos0), x));
                assert(movephase == 1);
            }
        }
        let m = {
            let pos = &mut positionstack[ply];
            let ml = &mut movestack[ply];
            let sl = &mut scores[ply];
            pick_move(
                tables,
                pos,
                ml.as_mut_slice(),
                sl.as_mut_slice(),
                &mut index,
                &mut totalmoves,
                &mut i,
                &mut movephase,
                &killertable[ply],
                &historytable[side],
                true,
                tmove,
            )
        };
        proof {
            if nm {
                assert(m == 0);
            }
        }
        if m == 0 {
            break;
        }
        if m == exmove {
            continue;
        }
        if j == 0 {
            best = m;
        }
        if j < 1000000 {
            j = j + 1;
        }
        let tm: u16 = match tmove {
            Some(t) => t,
            None => 0,
        };
        let ts: i32 = match tscore {
            Some(t) => t,
            None => 0,
        };
        if m == tm && exmove == 0 && depth >= 4 && ts & 3 == 1 {
            let singularbeta = clamp_score(ts as i64 - 1 - 4 * d as i64);
            let singled = d / 2;
            let score = zerowindow(
                tables,
                weights,
                positionstack,
                count,
                movestack,
                scores,
                singled,
                ply,
                singularbeta,
                ttable,
                halfcount,
                killertable,
                historytable,
                pruneflags,
                m,
                stopped,
                starttime,
                timelimit,
            );
            if score < singularbeta {
                if !extended {
                    d = d + 1;
                    extended = true;
                }
            } else if singularbeta >= beta {
                return singularbeta;
            }
        }
        if !child_position(positionstack, ply, m) {
            continue;
        }
        let halfcount2 = if m & 61440 == 0 { halfcount.saturating_add(1) } else { 0 };
        let mut score: i64;
        if j == 0 {
            score = -(negamax(
                tables,
                weights,
                positionstack,
                count,
                movestack,
                scores,
                d - 1,
                ply + 1,
                -beta,
                clamp_score(-alpha2),
                ttable,
                halfcount2,
                killertable,
                historytable,
                pruneflags,
                0,
                stopped,
                starttime,
                timelimit,
            ) as i64);
        } else {
            score = -(zerowindow(
                tables,
                weights,
                positionstack,
                count,
                movestack,
                scores,
                d - 1,
                ply + 1,
                clamp_score(-alpha2),
                ttable,
                halfcount2,
                killertable,
                historytable,
                pruneflags,
                0,
                stopped,
                starttime,
                timelimit,
            ) as i64);
            if score > alpha2 && score < cut {
                score = -(negamax(
                    tables,
                    weights,
                    positionstack,
                    count,
                    movestack,
                    scores,
                    d - 1,
                    ply + 1,
                    -beta,
                    clamp_score(-alpha2),
                    ttable,
                    halfcount2,
                    killertable,
                    historytable,
                    pruneflags,
                    0,
                    stopped,
                    starttime,
                    timelimit,
                ) as i64);
            }
        }
        if *stopped {
            return 0;
        }
        if score > alpha2 {
            alpha2 = score;
            best = m;
            if score >= cut {
                alpha2 = beta as i64;
                if m & 16384 == 0 && !in_check(tables, &positionstack[ply + 1]) {
                    reward_quiet(killertable, historytable, ply, side, m, depth);
                }
                break;
            }
        }
    }
    if j == 0 {
        proof {
            assert(-200000 < MATESCORE + ply < 0 ==> (4 * (MATESCORE + ply as i32)) as i32 & 3i32 == 0i32)
                by (bit_vector);
            assert(0i32 & 3 == 0) by (bit_vector);
        }
        let score = if kingattacked {
            4 * (MATESCORE + ply as i32)
        } else {
            draw_score(ply)
        };
        store(ttable, key, 0, depth, score, true);
        return score;
    }
    let low = (alpha as i64 + 1) & !3;
    let result = if alpha2 == low {
        low - 1
    } else if alpha2 == beta as i64 {
        ((beta as i64 + 1) & !3) + 1
    } else {
        (alpha2 + 1) & !3
    };
    proof {
        lemma_tag_bits(alpha as i64);
        lemma_tag_bits(beta as i64);
        lemma_tag_bits(alpha2);
    }
    let result = clamp_score(result);
    store(ttable, key, best, depth, result, false);
    result
}

/// What a finished iteration of the search reports.
pub struct SearchInfo {
    /// The depth of the iteration.
    pub depth: usize,
    /// The score in centipawns from the side to move.
    pub score: i32,
    /// The mate distance when the score is a mate.
    pub mate: Option<i32>,
    /// How many of the first thousand transposition entries are used.
    pub hashfull: u32,
    /// Nodes searched so far.
    pub nodes: usize,
    /// Time since the search started.
    pub elapsed: Duration,
    /// The principal variation.
    pub pv: Vec<u16>,
}

/// Whether `m` is among the first `n` entries of `list`.
fn list_contains(list: &Vec<u16>, n: usize, m: u16) -> (r: bool)
    requires
        n <= list@.len(),
    ensures
        r == exists|k: int| 0 <= k < n && list@[k] == m,
{
    let mut k: usize = 0;
    while k < n
        invariant
            n <= list@.len(),
            k <= n,
            forall|q: int| 0 <= q < k ==> list@[q] != m,
        decreases n - k,
    {
        if list[k] == m {
            return true;
        }
        k = k + 1;
    }
    false
}

/// The line that `principal_variation` follows from `b` in `steps` more steps: the table
/// move of `b` is taken when both kings stand and it is a generated move that can be
/// played; a table move that is not generated costs a step on the refreshed board; the line
/// ends at a position without a table move, without both kings, or where the move cannot be
/// played.
pub open spec fn pv_line(tt: Seq<TableEntry>, b: Board, steps: nat) -> Seq<u16>
    decreases steps,
{
    if steps == 0 {
        Seq::empty()
    } else {
        match move_read(tt[hash_spec(b.key) as int], b.key) {
            None => Seq::empty(),
            Some(j) => if !kings_present(b) {
                Seq::empty()
            } else if move_listed(refreshed_of(b), j) {
                match position_after(refreshed_of(b), j) {
                    Some(nb) => seq![j] + pv_line(tt, nb, (steps - 1) as nat),
                    None => Seq::empty(),
                }
            } else {
                pv_line(tt, refreshed_of(b), (steps - 1) as nat)
            },
        }
    }
}

/// Every position on that line whose moves are generated keeps its pieces apart and has
/// fewer than 256 moves, so that the generated list holds them all.
pub open spec fn line_fits(tt: Seq<TableEntry>, b: Board, steps: nat) -> bool
    decreases steps,
{
    if steps == 0 {
        true
    } else {
        match move_read(tt[hash_spec(b.key) as int], b.key) {
            None => true,
            Some(j) => if !kings_present(b) {
                true
            } else {
                &&& pieces_apart(b)
                &&& listed_count(refreshed_of(b)) < 256
                &&& if move_listed(refreshed_of(b), j) {
                    match position_after(refreshed_of(b), j) {
                        Some(nb) => line_fits(tt, nb, (steps - 1) as nat),
                        None => true,
                    }
                } else {
                    line_fits(tt, refreshed_of(b), (steps - 1) as nat)
                }
            },
        }
    }
}

/// The principal variation from `board`: the transposition moves followed as long as each
/// is a generated move of its position, at most `d` of them.
fn principal_variation(tables: &AttackTables, board: &Board, d: usize, ttable: &Vec<TableEntry>, movestack: &mut Vec<Vec<u16>>) -> (pv: Vec<u16>)
    requires
        tables.wf(),
        ttable@.len() == TTABLEMASK + 1,
        old(movestack)@.len() == MAXPLY,
        forall|p: int| 0 <= p < MAXPLY ==> (#[trigger] old(movestack)@[p])@.len() == 256,
        d <= MAXPLY,
    ensures
        final(movestack)@.len() == MAXPLY,
        forall|p: int| 0 <= p < MAXPLY ==> (#[trigger] final(movestack)@[p])@.len() == 256,
        pv@.len() <= d,
        forall|k: int| 0 <= k < pv@.len() ==> valid_move(#[trigger] pv@[k]),
        line_fits(ttable@, *board, d as nat) ==> pv@ == pv_line(ttable@, *board, d as nat),
{
    let mut pv: Vec<u16> = Vec::new();
    let mut boardcopy = *board;
    let mut i: usize = 0;
    while i < d
        invariant_except_break
            line_fits(ttable@, *board, d as nat) ==> line_fits(ttable@, boardcopy, (d - i) as nat) && pv@
                + pv_line(ttable@, boardcopy, (d - i) as nat) == pv_line(ttable@, *board, d as nat),
        invariant
            tables.wf(),
            ttable@.len() == TTABLEMASK + 1,
            movestack@.len() == MAXPLY,
            forall|p: int| 0 <= p < MAXPLY ==> (#[trigger] movestack@[p])@.len() == 256,
            d <= MAXPLY,
            i <= d,
            pv@.len() <= i,
            forall|k: int| 0 <= k < pv@.len() ==> valid_move(#[trigger] pv@[k]),
        ensures
            pv@.len() <= d,
            forall|k: int| 0 <= k < pv@.len() ==> valid_move(#[trigger] pv@[k]),
            line_fits(ttable@, *board, d as nat) ==> pv@ == pv_line(ttable@, *board, d as nat),
        decreases d - i,
    {
        let ghost b0 = boardcopy;
        let ghost steps = (d - i) as nat;
        let ghost pv0 = pv@;
        proof {
            assert(hash_spec(b0.key) == (b0.key as usize) & TTABLEMASK);
        }
        match ttable[boardcopy.hash()].read_move(boardcopy.key) {
            Some(j) => {
                if !kings_present_exec(&boardcopy) {
                    proof {
                        assert(pv_line(ttable@, b0, steps) == Seq::<u16>::empty());
                        assert(pv0 + Seq::<u16>::empty() == pv0);
                    }
                    break;
                }
                let n = {
                    let list = &mut movestack[i];
                    generate_moves(tables, &mut boardcopy, list.as_mut_slice())
                };
                proof {
                    lemma_refreshed_of(b0, boardcopy);
                }
                let found = list_contains(&movestack[i], n, j);
                proof {
                    if found {
                        let k = choose|k: int| 0 <= k < n && movestack@[i as int]@[k] == j;
                        assert(move_listed(boardcopy, movestack@[i as int]@[k]));
                    }
                    if line_fits(ttable@, *board, d as nat) && move_listed(boardcopy, j) {
                        assert(pieces_apart(b0) && listed_count(boardcopy) < 256);
                        lemma_list_within_count(movestack@[i as int]@, n as int, boardcopy);
                        assert(in_list(movestack@[i as int]@, 0, n as int, j));
                        assert(found);
                    }
                }
                if found && j != 0 {
                    match next_position(&boardcopy, j) {
                        Some(b) => {
                            boardcopy = b;
                            pv.push(j);
                            proof {
                                if line_fits(ttable@, *board, d as nat) {
                                    assert(pv_line(ttable@, b0, steps) == seq![j] + pv_line(ttable@, b, (steps - 1) as nat));
                                    assert(pv@ == pv0 + seq![j]);
                                    assert(pv@ + pv_line(ttable@, b, (steps - 1) as nat) == pv0 + pv_line(ttable@, b0, steps));
                                }
                            }
                        },
                        None => {
                            proof {
                                if line_fits(ttable@, *board, d as nat) {
                                    assert(pv_line(ttable@, b0, steps) == Seq::<u16>::empty());
                                    assert(pv0 + Seq::<u16>::empty() == pv0);
                                }
                            }
                            break;
                        },
                    }
                } else {
                    proof {
                        if line_fits(ttable@, *board, d as nat) {
                            assert(!move_listed(boardcopy, j));
                            assert(pv_line(ttable@, b0, steps) == pv_line(ttable@, boardcopy, (steps - 1) as nat));
                        }
                    }
                }
            },
            None => {
                proof {
                    assert(pv_line(ttable@, b0, steps) == Seq::<u16>::empty());
                    assert(pv0 + Seq::<u16>::empty() == pv0);
                }
                break;
            },
        }
        i = i + 1;
    }
    pv
}

/// The move that the transposition table holds for `board`, 0 when it holds none.
pub open spec fn root_move(tt: Seq<TableEntry>, board: Board) -> u16 {
    match move_read(tt[hash_spec(board.key) as int], board.key) {
        Some(x) => x,
        None => 0,
    }
}

/// Searches `board` one ply deeper at a time, up to `maxdepth` or until `timelimit`
/// milliseconds have passed (never, when it is `None`), and returns the transposition move of the position after the last iteration
/// that finished (0 when none did). Each finished iteration is reported in `infos`; an
/// iteration cut short by the time limit is neither reported nor used.
pub fn search_position(
    tables: &AttackTables,
    weights: &EvalWeights,
    board: &mut Board,
    maxdepth: usize,
    timelimit: Option<u64>,
    ttable: &mut Vec<TableEntry>,
    halfcount: usize,
    infos: &mut Vec<SearchInfo>,
) -> (bestmove: u16)
    requires
        tables.wf(),
        weights.wf(),
        ttable_ok(old(ttable)@),
        maxdepth <= MAXPLY,
    ensures
        bestmove == 0 || valid_move(bestmove),
        ttable_ok(final(ttable)@),
        final(infos)@.len() <= old(infos)@.len() + maxdepth,
        *final(board) == *old(board),
        final(infos)@.len() >= old(infos)@.len(),
        forall|k: int| 0 <= k < old(infos)@.len() ==> final(infos)@[k] == old(infos)@[k],
        forall|k: int|
            old(infos)@.len() <= k < final(infos)@.len() ==> (#[trigger] final(infos)@[k]).depth == k - old(
                infos,
            )@.len() + 1,
        maxdepth >= 1 && final(infos)@.len() == old(infos)@.len() + maxdepth ==> bestmove == root_move(
            final(ttable)@,
            *old(board),
        ),
        final(infos)@.len() == old(infos)@.len() ==> bestmove == 0,
        timelimit is None ==> final(infos)@.len() == old(infos)@.len() + maxdepth,
        maxdepth == 0 ==> bestmove == 0 && final(ttable)@ == old(ttable)@ && final(infos)@ == old(infos)@,
{
    let mut positionstack: Vec<Board> = Vec::new();
    let mut movestack: Vec<Vec<u16>> = Vec::new();
    let mut scores: Vec<Vec<i32>> = Vec::new();
    let mut killertable: Vec<Vec<u16>> = Vec::new();
    let mut k: usize = 0;
    while k < MAXPLY
        invariant
            k <= MAXPLY,
            positionstack@.len() == k,
            movestack@.len() == k,
            scores@.len() == k,
            killertable@.len() == k,
            forall|p: int| 0 <= p < k ==> (#[trigger] movestack@[p])@.len() == 256,
            forall|p: int| 0 <= p < k ==> (#[trigger] scores@[p])@.len() == 256,
            forall|p: int| 0 <= p < k ==> (#[trigger] killertable@[p])@.len() == 2,
        decreases MAXPLY - k,
    {
        positionstack.push(*board);
        movestack.push(vec![0u16; 256]);
        scores.push(vec![0i32; 256]);
        killertable.push(vec![0u16; 2]);
        k = k + 1;
    }
    let mut historytable: Vec<Vec<Vec<usize>>> = Vec::new();
    let mut s: usize = 0;
    while s < 2
        invariant
            s <= 2,
            historytable@.len() == s,
            forall|q: int| 0 <= q < s ==> (#[trigger] historytable@[q])@.len() == 64,
            forall|q: int, r: int| 0 <= q < s && 0 <= r < 64 ==> (#[trigger] historytable@[q]@[r])@.len() == 64,
        decreases 2 - s,
    {
        let mut table: Vec<Vec<usize>> = Vec::new();
        let mut r: usize = 0;
        while r < 64
            invariant
                r <= 64,
                table@.len() == r,
                forall|q: int| 0 <= q < r ==> (#[trigger] table@[q])@.len() == 64,
            decreases 64 - r,
        {
            table.push(vec![0usize; 64]);
            r = r + 1;
        }
        historytable.push(table);
        s = s + 1;
    }
    let mut m: u16 = 0;
    let mut stopped = false;
    let mut pruneflags: (u8, bool) = (0, true);
    let start = now();
    let mut count: usize = 0;
    let mut d: usize = 1;
    let ghost infos0 = infos@.len();
    while d <= maxdepth
        invariant_except_break
            d >= 2 ==> m == root_move(ttable@, *board),
        invariant
            tables.wf(),
            weights.wf(),
            maxdepth <= MAXPLY,
            1 <= d <= maxdepth + 1,
            search_dims(positionstack@, movestack@, scores@, killertable@, historytable@),
            ttable_ok(ttable@),
            pruneflags.0 == 0,
            m == 0 || valid_move(m),
            infos@.len() == infos0 + d - 1,
            infos0 == old(infos)@.len(),
            forall|k: int| 0 <= k < infos0 ==> infos@[k] == old(infos)@[k],
            forall|k: int| infos0 <= k < infos@.len() ==> (#[trigger] infos@[k]).depth == k - infos0 + 1,
            *board == *old(board),
            d == 1 ==> m == 0 && infos@ == old(infos)@,
            maxdepth == 0 ==> ttable@ == old(ttable)@,
            timelimit is None ==> !stopped,
        ensures
            timelimit is None ==> infos@.len() == infos0 + maxdepth,
            infos@.len() <= infos0 + maxdepth,
            maxdepth >= 1 && infos@.len() == infos0 + maxdepth ==> m == root_move(ttable@, *board),
            infos@.len() == infos0 ==> m == 0,
        decreases maxdepth + 1 - d,
    {
        positionstack.set(0, *board);
        proof {
            assert(d * d <= 4096) by (nonlinear_arith)
                requires
                    d <= 64,
            ;
        }
        let score = negamax(
            tables,
            weights,
            &mut positionstack,
            &mut count,
            &mut movestack,
            &mut scores,
            d,
            0,
            -100000000,
            100000000,
            ttable,
            halfcount,
            &mut killertable,
            &mut historytable,
            &mut pruneflags,
            0,
            &mut stopped,
            start,
            timelimit,
        );
        if stopped {
            break;
        }
        let h = board.hash();
        m = match ttable[h].read_move(board.key) {
            Some(x) => x,
            None => 0,
        };
        let score = match ttable[h].read_value(board.key, d) {
            Some(x) => x,
            None => score,
        };
        assert(in_limit(ttable@[h as int].score as int));
        let pv = principal_variation(tables, board, d, ttable, &mut movestack);
        let bounded = ((score as i64 + 1) & !3);
        proof {
            lemma_window(score as i64);
        }
        let cp = div_toward_zero(bounded, 4);
        let mate: Option<i32> = if cp >= -(MATESCORE as i64) - 200 {
            Some(clamp_score(div_toward_zero(-bounded, 4) - MATESCORE as i64))
        } else if score as i64 <= MATESCORE as i64 + 200 {
            Some(clamp_score(div_toward_zero(-bounded, 4) + MATESCORE as i64))
        } else {
            None
        };
        infos.push(
            SearchInfo {
                depth: d,
                score: clamp_score(cp),
                mate,
                hashfull: crude_full(ttable),
                nodes: count,
                elapsed: elapsed_since(&start),
                pv,
            },
        );
        d = d + 1;
    }
    m
}

} // verus!
