//! Move ordering: scores for moves, and a max-heap over the scores that hands out the
//! best remaining move first. Moves and their scores sit in two parallel lists.
use vstd::prelude::*;
use vstd::seq_lib::to_multiset_update;
use crate::bits::{has_bit, single};
use crate::engine::{Board, side_index, enemy_base, some_piece_from, refreshed_of, lemma_refreshed_of};
use crate::moves::{Move, MoveStuff, spec_initial, spec_final, spec_extra, first_piece, lemma_first_piece};
use crate::movegen::{generate_captures, generate_quiets, kings_present, own_base, move_listed, in_list, capture_listed, quiet_listed, pieces_apart};
use crate::piececonstants::AttackTables;

verus! {

/// The moves paired with their scores.
pub open spec fn zipped(moves: Seq<u16>, scores: Seq<i32>) -> Seq<(u16, i32)> {
    Seq::new(moves.len(), |k: int| (moves[k], scores[k]))
}

/// Node `k` of the heap on `[0, end]` scores at least as much as its children.
pub open spec fn heap_at(s: Seq<i32>, k: int, end: int) -> bool {
    &&& 2 * k + 1 <= end ==> s[k] >= s[2 * k + 1]
    &&& 2 * k + 2 <= end ==> s[k] >= s[2 * k + 2]
}

/// Every node from `lo` to `end` scores at least as much as its children within `end`.
pub open spec fn heap_from(s: Seq<i32>, lo: int, end: int) -> bool {
    forall|k: int| lo <= k <= end ==> #[trigger] heap_at(s, k, end)
}

/// The two lists swapped at `i` and `j` hold the same pairs.
proof fn lemma_swap_pairs(moves: Seq<u16>, scores: Seq<i32>, i: int, j: int)
    requires
        moves.len() == scores.len(),
        0 <= i < moves.len(),
        0 <= j < moves.len(),
    ensures
        zipped(moves.update(i, moves[j]).update(j, moves[i]), scores.update(i, scores[j]).update(j, scores[i])).to_multiset()
            == zipped(moves, scores).to_multiset(),
{
    broadcast use vstd::multiset::group_multiset_axioms;
    broadcast use vstd::seq_lib::to_multiset_contains;

    let z = zipped(moves, scores);
    let z1 = z.update(i, z[j]);
    let z2 = z1.update(j, z[i]);
    assert(zipped(moves.update(i, moves[j]).update(j, moves[i]), scores.update(i, scores[j]).update(j, scores[i])) =~= z2);
    to_multiset_update(z, i, z[j]);
    to_multiset_update(z1, j, z[i]);
    assert(z.contains(z[i]));
    let m = z.to_multiset();
    assert(m.count(z[i]) > 0);
    assert(z1[j] == z[j]);
    assert(m.insert(z[j]).remove(z[i]).insert(z[i]).remove(z[j]) =~= m);
}

/// Swaps entries `i` and `j` of both lists.
fn swap_entries(moves: &mut [u16], scores: &mut [i32], i: usize, j: usize)
    requires
        old(moves)@.len() == old(scores)@.len(),
        i < old(moves)@.len(),
        j < old(moves)@.len(),
    ensures
        final(moves)@ == old(moves)@.update(i as int, old(moves)@[j as int]).update(j as int, old(moves)@[i as int]),
        final(scores)@ == old(scores)@.update(i as int, old(scores)@[j as int]).update(j as int, old(scores)@[i as int]),
        zipped(final(moves)@, final(scores)@).to_multiset() == zipped(old(moves)@, old(scores)@).to_multiset(),
{
    proof {
        lemma_swap_pairs(moves@, scores@, i as int, j as int);
    }
    let sm = scores[i];
    let sj = scores[j];
    scores[i] = sj;
    scores[j] = sm;
    let mi = moves[i];
    let mj = moves[j];
    moves[i] = mj;
    moves[j] = mi;
}

/// Moves the entry at `start` down the heap on `[0, end]` until it scores at least as much
/// as its children. The nodes below `start` must already keep the heap order.
fn shift_down(moves: &mut [u16], scores: &mut [i32], start: usize, end: usize)
    requires
        old(moves)@.len() == old(scores)@.len(),
        start <= end < old(moves)@.len(),
        end < usize::MAX / 2,
    ensures
        final(moves)@.len() == old(moves)@.len(),
        final(scores)@.len() == old(scores)@.len(),
        heap_from(old(scores)@, start as int + 1, end as int) ==> heap_from(final(scores)@, start as int, end as int),
        zipped(final(moves)@, final(scores)@).to_multiset() == zipped(old(moves)@, old(scores)@).to_multiset(),
        forall|k: int|
            0 <= k < final(moves)@.len() && (k < start || k > end) ==> final(moves)@[k] == old(moves)@[k]
                && final(scores)@[k] == old(scores)@[k],
{
    let ghost m0 = moves@;
    let ghost s0 = scores@;
    let ghost pre = heap_from(s0, start as int + 1, end as int);
    let mut root = start;
    loop
        invariant
            moves@.len() == scores@.len(),
            moves@.len() == m0.len(),
            start <= root <= end < moves@.len(),
            end < usize::MAX / 2,
            pre == heap_from(s0, start as int + 1, end as int),
            pre ==> forall|k: int| start <= k <= end && k != root ==> #[trigger] heap_at(scores@, k, end as int),
            pre && root > start ==> {
                let p = (root - 1) / 2;
                &&& 2 * root + 1 <= end ==> scores@[p] >= scores@[2 * root + 1]
                &&& 2 * root + 2 <= end ==> scores@[p] >= scores@[2 * root + 2]
            },
            root > start ==> start <= (root - 1) / 2 < root,
            zipped(moves@, scores@).to_multiset() == zipped(m0, s0).to_multiset(),
            forall|k: int|
                0 <= k < m0.len() && (k < start || k > end) ==> moves@[k] == m0[k] && scores@[k] == s0[k],
        ensures
            pre ==> heap_from(scores@, start as int, end as int),
        decreases end - root,
    {
        let mut child = root * 2 + 1;
        if child > end {
            assert(heap_at(scores@, root as int, end as int));
            assert(pre ==> heap_from(scores@, start as int, end as int));
            break;
        }
        if child + 1 <= end && scores[child] <= scores[child + 1] {
            child = child + 1;
        }
        if scores[root] < scores[child] {
            let ghost sb = scores@;
            proof {
                if pre {
                    assert(heap_at(sb, child as int, end as int));
                    if root > start {
                        assert(heap_at(sb, (root - 1) / 2, end as int));
                    }
                }
                assert((child - 1) / 2 == root);
            }
            swap_entries(moves, scores, root, child);
            proof {
                assert forall|k: int| pre && start <= k <= end && k != child implies #[trigger] heap_at(scores@, k, end as int) by {
                    if k == root {
                    } else if k == (root - 1) / 2 && root > start {
                    } else {
                        assert(heap_at(sb, k, end as int));
                    }
                }
            }
            root = child;
        } else {
            assert(heap_at(scores@, root as int, end as int));
            assert(pre ==> heap_from(scores@, start as int, end as int));
            break;
        }
    }
}

/// Arranges the first `size` entries as a heap with the highest score first.
pub fn build_max_heap(moves: &mut [u16], scores: &mut [i32], size: usize)
    requires
        old(moves)@.len() == old(scores)@.len(),
        size <= old(moves)@.len(),
        size < usize::MAX / 2,
    ensures
        final(moves)@.len() == old(moves)@.len(),
        final(scores)@.len() == old(scores)@.len(),
        heap_from(final(scores)@, 0, size - 1),
        zipped(final(moves)@, final(scores)@).to_multiset() == zipped(old(moves)@, old(scores)@).to_multiset(),
        forall|k: int| size <= k < final(moves)@.len() ==> final(moves)@[k] == old(moves)@[k] && final(scores)@[k] == old(scores)@[k],
{
    let ghost m0 = moves@;
    let ghost s0 = scores@;
    let mut i = size / 2;
    while i > 0
        invariant
            moves@.len() == scores@.len(),
            moves@.len() == m0.len(),
            size <= moves@.len(),
            size < usize::MAX / 2,
            i <= size / 2,
            heap_from(scores@, i as int, size - 1),
            zipped(moves@, scores@).to_multiset() == zipped(m0, s0).to_multiset(),
            forall|k: int| size <= k < moves@.len() ==> moves@[k] == m0[k] && scores@[k] == s0[k],
        decreases i,
    {
        i = i - 1;
        proof {
            assert forall|k: int| i + 1 <= k <= size - 1 implies #[trigger] heap_at(scores@, k, size - 1) by {
                if k >= size / 2 {
                } else {
                    assert(heap_at(scores@, k, size - 1));
                }
            }
        }
        shift_down(moves, scores, i, size - 1);
    }
    proof {
        if size == 0 {
            assert forall|k: int| 0 <= k <= size - 1 implies #[trigger] heap_at(scores@, k, size - 1) by {}
        }
    }
}

/// Moves the best entry of the heap on `[0, size - i - 1]` behind it, to `size - i - 1`,
/// and restores the heap on the entries before.
pub fn next_move(moves: &mut [u16], scores: &mut [i32], size: usize, i: usize)
    requires
        old(moves)@.len() == old(scores)@.len(),
        i < size <= old(moves)@.len(),
        size < usize::MAX / 2,
        size - i - 1 != 0,
    ensures
        final(moves)@.len() == old(moves)@.len(),
        final(scores)@.len() == old(scores)@.len(),
        final(moves)@[size - i - 1] == old(moves)@[0],
        final(scores)@[size - i - 1] == old(scores)@[0],
        heap_from(old(scores)@, 0, size - i - 1) ==> heap_from(final(scores)@, 0, size - i - 2),
        zipped(final(moves)@, final(scores)@).to_multiset() == zipped(old(moves)@, old(scores)@).to_multiset(),
        forall|k: int| size - i <= k < final(moves)@.len() ==> final(moves)@[k] == old(moves)@[k] && final(scores)@[k] == old(scores)@[k],
{
    let end: usize = size - i - 1;
    swap_entries(moves, scores, 0, end);
    proof {
        if heap_from(old(scores)@, 0, end as int) {
            assert forall|k: int| 1 <= k <= end - 1 implies #[trigger] heap_at(scores@, k, end - 1) by {
                assert(heap_at(old(scores)@, k, end as int));
            }
        }
    }
    shift_down(moves, scores, 0, end - 1);
}

/// The top of a heap scores at least as much as every entry of it.
pub proof fn lemma_heap_top(s: Seq<i32>, end: int, k: int)
    requires
        heap_from(s, 0, end),
        0 <= k <= end,
    ensures
        s[0] >= s[k],
    decreases k,
{
    if k > 0 {
        let p = (k - 1) / 2;
        assert(heap_at(s, p, end));
        lemma_heap_top(s, end, p);
    }
}

/// Material value of each piece kind: pawn, knight, bishop, rook, queen, king.
pub const PIECEWEIGHT: [i32; 6] = [100, 300, 300, 500, 900, 10000];

/// Capture order: the most valuable victim first, then the least valuable attacker.
pub open spec fn spec_mvv_lva(attacker: int, victim: int) -> int {
    100 * (victim % 6 + 1) + (5 - attacker % 6)
}

pub fn mvv_lva(attacker: usize, victim: usize) -> (score: i32)
    requires
        attacker < 12,
        victim < 12,
    ensures
        score == spec_mvv_lva(attacker as int, victim as int),
{
    (100 * (victim % 6 + 1) + (5 - attacker % 6)) as i32
}

/// The score of a move: killers first, then promotions, castles and quiet moves by their
/// history; captures by victim and attacker, en passant as a pawn taking a pawn. A capture
/// whose squares hold no suitable pieces scores 0.
pub open spec fn move_score(b: Board, killers: Seq<u16>, history: Seq<Vec<usize>>, m: u16) -> i32 {
    let init = spec_initial(m);
    let fin = spec_final(m);
    let extra = spec_extra(m);
    if extra % 8 < 4 {
        if m == killers[0] || m == killers[1] {
            10000000
        } else if extra >= 8 {
            (PIECEWEIGHT[(extra as u16 & 4u16) as int] * 10) as i32
        } else if extra % 4 >= 2 {
            1000
        } else {
            history[init]@[fin] as i32
        }
    } else if !has_bit(b.occupancies[2], fin as u64) {
        120
    } else if !some_piece_from(b, enemy_base(b), fin) || !some_piece_from(b, 6 * side_index(b), init) {
        0
    } else {
        spec_mvv_lva(first_piece(b, 6 * side_index(b), init), first_piece(b, enemy_base(b), fin)) as i32
    }
}

/// Whether some board among `pieceboards[lo..lo + 6]` holds `sq`.
fn piece_in(b: &Board, lo: usize, sq: usize) -> (r: bool)
    requires
        lo <= 6,
        sq < 64,
    ensures
        r == some_piece_from(*b, lo as int, sq as int),
{
    let sqb = 1u64 << (sq as u64);
    for j in 0..6usize
        invariant
            lo <= 6,
            sq < 64,
            sqb == single(sq as u64),
            forall|i: int| lo <= i < lo + j ==> !has_bit(#[trigger] b.pieceboards[i], sq as u64),
    {
        proof {
            crate::bits::lemma_and_single(b.pieceboards[lo + j], sq as u64);
            crate::bits::lemma_and_comm(sqb, b.pieceboards[lo + j]);
        }
        if sqb & b.pieceboards[lo + j] != 0 {
            return true;
        }
    }
    false
}

fn score_move(board: &Board, killers: &Vec<u16>, history: &Vec<Vec<usize>>, m: u16) -> (score: i32)
    requires
        killers@.len() >= 2,
        history@.len() >= 64,
        forall|r: int| 0 <= r < 64 ==> (#[trigger] history@[r])@.len() >= 64,
    ensures
        score == move_score(*board, killers@, history@, m),
{
    let initsq = m.get_initial() as usize;
    let finalsq = m.get_final() as usize;
    let extra = m.get_extra();
    proof {
        crate::moves::lemma_u16_fields(0, extra);
    }
    if extra & 4 == 0 {
        if m == killers[0] || m == killers[1] {
            10000000
        } else if extra & 8 != 0 {
            let k = (extra as usize) & (3 + 1);
            proof {
                crate::bits::lemma_usize_bits(0, extra);
            }
            PIECEWEIGHT[k] * 10
        } else if extra & 2 != 0 {
            1000
        } else {
            let hval = history[initsq][finalsq];
            hval as i32
        }
    } else {
        proof {
            crate::bits::lemma_and_single(board.occupancies[2], finalsq as u64);
        }
        let eb: usize = if board.side == Some(0) { 6 } else { 0 };
        let sb: usize = if board.side == Some(1) { 6 } else { 0 };
        if board.occupancies[2] & (1u64 << (finalsq as u64)) == 0 {
            120
        } else if !piece_in(board, eb, finalsq) || !piece_in(board, sb, initsq) {
            0
        } else {
            let target = board.get_target(finalsq).unwrap();
            let attacker = board.get_attacker(initsq);
            proof {
                lemma_first_piece(*board, enemy_base(*board), finalsq as int, target as int);
                lemma_first_piece(*board, 6 * side_index(*board), initsq as int, attacker as int);
            }
            mvv_lva(attacker, target)
        }
    }
}

/// Scores the first `n` moves. The move `tmove`, already searched, is taken out: swapped
/// behind the others, and `n` shrinks by one for each time it is met.
pub fn score_moves(
    moves: &mut [u16],
    scores: &mut [i32],
    n: &mut usize,
    board: &Board,
    killers: &Vec<u16>,
    history: &Vec<Vec<usize>>,
    tmove: Option<Move>,
)
    requires
        *old(n) <= old(moves)@.len(),
        old(moves)@.len() == old(scores)@.len(),
        forall|k: int| 0 <= k < *old(n) ==> old(moves)@[k] != 0,
        killers@.len() >= 2,
        history@.len() >= 64,
        forall|r: int| 0 <= r < 64 ==> (#[trigger] history@[r])@.len() >= 64,
    ensures
        *final(n) <= *old(n),
        final(moves)@.len() == old(moves)@.len(),
        final(scores)@.len() == old(scores)@.len(),
        final(moves)@.subrange(0, *old(n) as int).to_multiset() == old(moves)@.subrange(0, *old(n) as int).to_multiset(),
        forall|k: int| *old(n) <= k < final(moves)@.len() ==> final(moves)@[k] == old(moves)@[k],
        forall|k: int|
            0 <= k < *final(n) ==> #[trigger] final(scores)@[k] == move_score(*board, killers@, history@, final(moves)@[k]),
        forall|k: int| 0 <= k < *final(n) ==> final(moves)@[k] != 0,
        (tmove is None || forall|k: int| 0 <= k < *old(n) ==> old(moves)@[k] != tmove->0) ==> *final(n) == *old(n)
            && final(moves)@ == old(moves)@,
        tmove is Some && (exists|k: int| 0 <= k < *old(n) && old(moves)@[k] == tmove->0) && (forall|a: int, c: int|
            0 <= a < *old(n) && 0 <= c < *old(n) && #[trigger] old(moves)@[a] == tmove->0 && #[trigger] old(
                moves,
            )@[c] == tmove->0 ==> a == c) ==> {
            &&& *final(n) == *old(n) - 1
            &&& final(moves)@[*final(n) as int] == tmove->0
            &&& forall|k: int| 0 <= k < *final(n) ==> #[trigger] final(moves)@[k] != tmove->0
        },
{
    broadcast use vstd::multiset::group_multiset_axioms;
    broadcast use vstd::seq_lib::to_multiset_contains;

    let ghost m0 = moves@;
    let ghost n0 = *n;
    let t = match tmove {
        Some(t) => t,
        None => 0,
    };
    let ghost once = tmove is Some && (exists|k: int| 0 <= k < n0 && m0[k] == t) && (forall|a: int, c: int|
        0 <= a < n0 && 0 <= c < n0 && #[trigger] m0[a] == t && #[trigger] m0[c] == t ==> a == c);
    let ghost mut found = false;
    let mut i: usize = 0;
    while i < *n
        invariant
            *n <= n0 <= m0.len(),
            once ==> tmove is Some && (forall|a: int, c: int|
                0 <= a < n0 && 0 <= c < n0 && #[trigger] moves@[a] == t && #[trigger] moves@[c] == t ==> a == c),
            once && found ==> *n == n0 - 1 && moves@[*n as int] == t,
            once && !found ==> *n == n0 && exists|k: int| i <= k < n0 && moves@[k] == t,
            once ==> forall|k: int| 0 <= k < i ==> #[trigger] moves@[k] != t,
            moves@.len() == m0.len(),
            scores@.len() == m0.len(),
            i <= *n,
            moves@.subrange(0, n0 as int).to_multiset() == m0.subrange(0, n0 as int).to_multiset(),
            forall|k: int| n0 <= k < m0.len() ==> moves@[k] == m0[k],
            forall|k: int| 0 <= k < *n ==> moves@[k] != 0,
            killers@.len() >= 2,
            history@.len() >= 64,
            forall|r: int| 0 <= r < 64 ==> (#[trigger] history@[r])@.len() >= 64,
            forall|k: int| 0 <= k < i ==> #[trigger] scores@[k] == move_score(*board, killers@, history@, moves@[k]),
            t == (match tmove {
                Some(x) => x,
                None => 0u16,
            }),
            (tmove is None || forall|k: int| 0 <= k < n0 ==> m0[k] != tmove->0) ==> *n == n0 && moves@ == m0,
        ensures
            forall|k: int| 0 <= k < *n ==> #[trigger] scores@[k] == move_score(*board, killers@, history@, moves@[k]),
            once ==> *n == n0 - 1 && moves@[*n as int] == t && forall|k: int| 0 <= k < *n ==> #[trigger] moves@[k] != t,
        decreases *n - i,
    {
        let mut m = moves[i];
        if m == t {
            *n = *n - 1;
            proof {
                if once {
                    if found {
                        assert(moves@[i as int] == t && moves@[(*n + 1) as int] == t);
                    }
                    found = true;
                }
            }
            if i >= *n {
                break;
            }
            let ghost before = moves@;
            let j = *n;
            let mj = moves[j];
            moves[j] = m;
            moves[i] = mj;
            proof {
                let sub0 = before.subrange(0, n0 as int);
                let s1 = sub0.update(j as int, m);
                let s2 = s1.update(i as int, mj);
                to_multiset_update(sub0, j as int, m);
                to_multiset_update(s1, i as int, mj);
                assert(moves@.subrange(0, n0 as int) =~= s2);
                assert(sub0[j as int] == mj);
                assert(sub0.contains(mj));
                vstd::seq_lib::to_multiset_contains(sub0, mj);
                assert(sub0.to_multiset().count(mj) > 0);
                assert(sub0.to_multiset().insert(m).remove(mj).insert(mj).remove(m) =~= sub0.to_multiset());
            }
            m = moves[i];
        }
        scores[i] = score_move(board, killers, history, m);
        i = i + 1;
    }
}

/// A reordering of the pairs that leaves the entries from `n` on in place keeps the first
/// `n` moves among the first `n` moves it started with.
proof fn lemma_prefix_members(a: Seq<u16>, sa: Seq<i32>, b: Seq<u16>, sb: Seq<i32>, n: int)
    requires
        a.len() == sa.len(),
        b.len() == sb.len(),
        a.len() == b.len(),
        0 <= n <= a.len(),
        zipped(a, sa).to_multiset() == zipped(b, sb).to_multiset(),
        forall|k: int| n <= k < a.len() ==> a[k] == b[k] && sa[k] == sb[k],
    ensures
        forall|k: int| 0 <= k < n ==> #[trigger] in_list(a, 0, n, b[k]),
{
    broadcast use vstd::multiset::group_multiset_axioms;
    let za = zipped(a, sa);
    let zb = zipped(b, sb);
    let len = a.len() as int;
    assert(za == za.subrange(0, n) + za.subrange(n, len));
    assert(zb == zb.subrange(0, n) + zb.subrange(n, len));
    assert(za.subrange(n, len) =~= zb.subrange(n, len));
    vstd::seq_lib::lemma_multiset_commutative(za.subrange(0, n), za.subrange(n, len));
    vstd::seq_lib::lemma_multiset_commutative(zb.subrange(0, n), zb.subrange(n, len));
    let ma = za.subrange(0, n).to_multiset();
    let mb = zb.subrange(0, n).to_multiset();
    let mt = za.subrange(n, len).to_multiset();
    assert(ma.add(mt) == mb.add(mt));
    assert(ma =~= mb) by {
        assert forall|x: (u16, i32)| ma.count(x) == mb.count(x) by {
            assert(ma.add(mt).count(x) == mb.add(mt).count(x));
        }
    }
    assert forall|k: int| 0 <= k < n implies #[trigger] in_list(a, 0, n, b[k]) by {
        let x = zb[k];
        assert(zb.subrange(0, n)[k] == x);
        vstd::seq_lib::to_multiset_contains(zb.subrange(0, n), x);
        assert(ma.count(x) > 0);
        vstd::seq_lib::to_multiset_contains(za.subrange(0, n), x);
        assert(za.subrange(0, n).contains(x));
        let j = choose|j: int| 0 <= j < n && za.subrange(0, n)[j] == x;
        assert(a[j] == b[k]);
    }
}

/// The pair at `k` after such a reordering stood at some index below `n` before it.
proof fn lemma_prefix_pair(a: Seq<u16>, sa: Seq<i32>, b: Seq<u16>, sb: Seq<i32>, n: int, k: int) -> (j: int)
    requires
        a.len() == sa.len(),
        b.len() == sb.len(),
        a.len() == b.len(),
        0 <= k < n <= a.len(),
        zipped(a, sa).to_multiset() == zipped(b, sb).to_multiset(),
        forall|x: int| n <= x < a.len() ==> a[x] == b[x] && sa[x] == sb[x],
    ensures
        0 <= j < n,
        a[j] == b[k],
        sa[j] == sb[k],
{
    broadcast use vstd::multiset::group_multiset_axioms;
    let za = zipped(a, sa);
    let zb = zipped(b, sb);
    let len = a.len() as int;
    assert(za == za.subrange(0, n) + za.subrange(n, len));
    assert(zb == zb.subrange(0, n) + zb.subrange(n, len));
    assert(za.subrange(n, len) =~= zb.subrange(n, len));
    vstd::seq_lib::lemma_multiset_commutative(za.subrange(0, n), za.subrange(n, len));
    vstd::seq_lib::lemma_multiset_commutative(zb.subrange(0, n), zb.subrange(n, len));
    let ma = za.subrange(0, n).to_multiset();
    let mb = zb.subrange(0, n).to_multiset();
    let mt = za.subrange(n, len).to_multiset();
    assert(ma.add(mt) == mb.add(mt));
    assert(ma =~= mb) by {
        assert forall|x: (u16, i32)| ma.count(x) == mb.count(x) by {
            assert(ma.add(mt).count(x) == mb.add(mt).count(x));
        }
    }
    let x = zb[k];
    assert(zb.subrange(0, n)[k] == x);
    vstd::seq_lib::to_multiset_contains(zb.subrange(0, n), x);
    vstd::seq_lib::to_multiset_contains(za.subrange(0, n), x);
    let j = choose|j: int| 0 <= j < n && za.subrange(0, n)[j] == x;
    j
}

/// Two lists whose first `n` entries form one multiset share those entries.
proof fn lemma_same_prefix_member(a: Seq<u16>, b: Seq<u16>, n: int, j: int)
    requires
        0 <= j < n <= a.len(),
        n <= b.len(),
        a.subrange(0, n).to_multiset() == b.subrange(0, n).to_multiset(),
    ensures
        in_list(b, 0, n, a[j]),
{
    let x = a[j];
    assert(a.subrange(0, n)[j] == x);
    vstd::seq_lib::to_multiset_contains(a.subrange(0, n), x);
    vstd::seq_lib::to_multiset_contains(b.subrange(0, n), x);
    let k = choose|k: int| 0 <= k < n && b.subrange(0, n)[k] == x;
    assert(b[k] == x);
}

/// Whether the first `n` moves are all nonzero.
fn all_nonzero(moves: &[u16], n: usize) -> (r: bool)
    requires
        n <= moves@.len(),
    ensures
        r == forall|k: int| 0 <= k < n ==> moves@[k] != 0,
{
    let mut k: usize = 0;
    while k < n
        invariant
            n <= moves@.len(),
            k <= n,
            forall|j: int| 0 <= j < k ==> moves@[j] != 0,
        decreases n - k,
    {
        if moves[k] == 0 {
            return false;
        }
        k = k + 1;
    }
    true
}

/// The state of a move picker between calls: in phases 2 (captures) and 4 (quiet moves) the
/// first `movecount - i` entries form a heap.
pub open spec fn picker_ok(phase: usize, i: usize, movecount: usize, moves: Seq<u16>, scores: Seq<i32>) -> bool {
    &&& moves.len() == scores.len()
    &&& 1 <= moves.len() < usize::MAX / 2
    &&& i <= moves.len()
    &&& (phase == 2 || phase == 4) ==> i < movecount <= moves.len()
}

/// `c` is the one capture that `b` lists.
pub open spec fn only_capture(b: Board, c: u16) -> bool {
    forall|x: u16| #[trigger] capture_listed(b, x) <==> x == c
}

/// In phases 2 and 4 the first `movecount - i` entries form a heap.
pub open spec fn picker_heap(phase: usize, i: usize, movecount: usize, scores: Seq<i32>) -> bool {
    (phase == 2 || phase == 4) ==> heap_from(scores, 0, movecount - 1 - i)
}

/// Hands out the next move to search, at `moves[0]`: first the transposition move (phase 0,
/// placed there by the caller), then the captures by score (phases 1, 2), then, when
/// `quiets`, the quiet moves by score (phases 3, 4); 0 when no move is left. A list of
/// generated moves holding an empty move ends the phases.
pub fn pick_move(
    tables: &AttackTables,
    position: &mut Board,
    moves: &mut [u16],
    scores: &mut [i32],
    movecount: &mut usize,
    totalmoves: &mut usize,
    i: &mut usize,
    movephase: &mut usize,
    killers: &Vec<u16>,
    history: &Vec<Vec<usize>>,
    quiets: bool,
    tmove: Option<Move>,
) -> (m: Move)
    requires
        tables.wf(),
        kings_present(*old(position)),
        picker_ok(*old(movephase), *old(i), *old(movecount), old(moves)@, old(scores)@),
        killers@.len() >= 2,
        history@.len() >= 64,
        forall|r: int| 0 <= r < 64 ==> (#[trigger] history@[r])@.len() >= 64,
    ensures
        kings_present(*final(position)),
        final(position).pieceboards == old(position).pieceboards,
        final(position).occupancies == old(position).occupancies,
        final(position).side == old(position).side,
        final(position).castle == old(position).castle,
        final(position).key == old(position).key,
        final(position).enpassant == old(position).enpassant || final(position).enpassant == 0,
        final(moves)@.len() == old(moves)@.len(),
        final(scores)@.len() == old(scores)@.len(),
        picker_ok(*final(movephase), *final(i), *final(movecount), final(moves)@, final(scores)@),
        m != 0 ==> *final(movephase) > *old(movephase) || (*final(movephase) == *old(movephase)
            && *final(i) > *old(i)),
        *final(movephase) >= *old(movephase),
        m != 0 ==> *final(movephase) <= 4,
        *final(totalmoves) >= *old(totalmoves),
        picker_heap(*old(movephase), *old(i), *old(movecount), old(scores)@) ==> picker_heap(
            *final(movephase),
            *final(i),
            *final(movecount),
            final(scores)@,
        ),
        (*final(movephase) == 2 || *final(movephase) == 4) && picker_heap(
            *final(movephase),
            *final(i),
            *final(movecount),
            final(scores)@,
        ) ==> m == final(moves)@[0] && forall|k: int|
            0 <= k <= *final(movecount) - 1 - *final(i) ==> final(scores)@[0] >= #[trigger] final(scores)@[k],
        *old(movephase) == 0 ==> m == old(moves)@[0] && *final(movephase) == 1,
        *old(movephase) == 1 && (forall|x: u16| !#[trigger] move_listed(refreshed_of(*old(position)), x)) ==> m == 0
            && *final(position) == refreshed_of(*old(position)),
        *old(movephase) == 1 && !quiets && (forall|x: u16| !#[trigger] capture_listed(refreshed_of(*old(position)), x))
            ==> m == 0 && *final(position) == refreshed_of(*old(position)),
        *old(movephase) == 1 && quiets && tmove is None && (exists|x: u16|
            #[trigger] move_listed(refreshed_of(*old(position)), x)) ==> m != 0,
        (*old(movephase) == 2 || *old(movephase) == 4) && *final(movephase) == *old(movephase) && m != 0 ==> {
            &&& final(moves)@[*final(movecount) - *final(i)] == old(moves)@[0]
            &&& final(scores)@[*final(movecount) - *final(i)] == old(scores)@[0]
            &&& picker_heap(*old(movephase), *old(i), *old(movecount), old(scores)@) ==> final(scores)@[0]
                <= old(scores)@[0]
        },
        forall|c: u16|
            #[trigger] only_capture(refreshed_of(*old(position)), c) && *old(movephase) == 1 && !quiets && tmove is None
                && pieces_apart(*old(position)) ==> {
                &&& m == c
                &&& m != 0
                &&& *final(movephase) == 2
                &&& *final(i) == 0
                &&& *final(movecount) == 1
                &&& *final(position) == refreshed_of(*old(position))
            },
        *old(movephase) == 2 && *old(i) + 1 >= *old(movecount) && !quiets ==> m == 0 && *final(position) == *old(
            position,
        ),
        m != 0 ==> {
            ||| *old(movephase) == 0 && m == old(moves)@[0]
            ||| *final(movephase) == *old(movephase) && in_list(old(moves)@, 0, *old(movecount) as int, m)
            ||| *final(movephase) == 2 && capture_listed(*final(position), m)
            ||| *final(movephase) == 4 && quiet_listed(*final(position), m)
        },
{
    let ghost p0 = *position;
    let ghost mv0 = moves@;
    let ghost mc0 = *movecount;
    if *movephase == 0 {
        *movephase = 1;
        *totalmoves = totalmoves.saturating_add(1);
        return moves[0];
    }
    if *movephase == 1 {
        *movecount = generate_captures(tables, position, moves);
        proof {
            lemma_refreshed_of(p0, *position);
            crate::movegen::lemma_refresh_ep_kept_or_dropped(p0);
            crate::movegen::lemma_empty_move_unlisted(p0, *position);
            if *movecount > 0 {
                assert(move_listed(*position, moves@[0]));
                assert forall|k: int| 0 <= k < *movecount implies moves@[k] != 0 by {
                    assert(capture_listed(*position, moves@[k]));
                }
            }
            assert forall|c: u16| #[trigger]
                only_capture(refreshed_of(p0), c) && pieces_apart(p0) implies *movecount == 1 by {
                if *movecount == 0 {
                    assert(capture_listed(*position, c));
                    assert(in_list(moves@, 0, 0, c));
                }
                if *movecount >= 2 {
                    assert(capture_listed(*position, moves@[0]));
                    assert(capture_listed(*position, moves@[1]));
                    assert(moves@[0] != moves@[1]);
                }
            }
        }
        let ghost g = moves@;
        let ghost n0 = *movecount;
        if all_nonzero(moves, *movecount) {
            score_moves(moves, scores, movecount, position, killers, history, tmove);
            *totalmoves = totalmoves.saturating_add(*movecount);
            if *movecount != 0 {
                let ghost h0 = moves@;
                let ghost hs0 = scores@;
                build_max_heap(moves, scores, *movecount);
                proof {
                    lemma_prefix_members(h0, hs0, moves@, scores@, *movecount as int);
                    assert(in_list(h0, 0, *movecount as int, moves@[0]));
                    let j = choose|j: int| 0 <= j < *movecount && #[trigger] h0[j] == moves@[0];
                    lemma_same_prefix_member(h0, g, n0 as int, j);
                    let k = choose|k: int| 0 <= k < n0 && #[trigger] g[k] == h0[j];
                    assert(capture_listed(*position, g[k]));
                    assert(move_listed(*position, moves@[0]));
                    assert(capture_listed(*position, moves@[0]));
                }
                *movephase = 2;
                *i = 0;
                proof {
                    assert forall|k: int| 0 <= k <= *movecount - 1 implies scores@[0] >= #[trigger] scores@[k] by {
                        lemma_heap_top(scores@, *movecount - 1, k);
                    }
                }
                return moves[0];
            }
        }
        *movephase = 3;
    }
    if *movephase == 2 {
        if *i >= *movecount - 1 {
            *movephase = 3;
        } else {
            let ghost h0 = moves@;
            let ghost hs0 = scores@;
            next_move(moves, scores, *movecount, *i);
            proof {
                lemma_prefix_members(h0, hs0, moves@, scores@, *movecount - *i);
                assert(in_list(h0, 0, *movecount - *i, moves@[0]));
                let j = choose|j: int| 0 <= j < *movecount - *i && #[trigger] h0[j] == moves@[0];
                assert(in_list(mv0, 0, mc0 as int, moves@[0]));
                let jj = lemma_prefix_pair(h0, hs0, moves@, scores@, *movecount - *i, 0);
                if heap_from(hs0, 0, *movecount - 1 - *i) {
                    lemma_heap_top(hs0, *movecount - 1 - *i, jj);
                }
            }
            *i = *i + 1;
            proof {
                if heap_from(scores@, 0, *movecount - 1 - *i) {
                    assert forall|k: int| 0 <= k <= *movecount - 1 - *i implies scores@[0] >= #[trigger] scores@[k] by {
                        lemma_heap_top(scores@, *movecount - 1 - *i, k);
                    }
                }
            }
            return moves[0];
        }
    }
    if *movephase == 3 {
        if !quiets {
            return 0;
        }
        let ghost before_q = *position;
        *movecount = generate_quiets(tables, position, moves, 0);
        proof {
            if *movecount > 0 {
                assert(move_listed(*position, moves@[0]));
            }
            if *old(movephase) == 1 {
                crate::movegen::lemma_empty_move_unlisted(p0, *position);
                assert forall|k: int| 0 <= k < *movecount implies moves@[k] != 0 by {
                    assert(quiet_listed(*position, moves@[k]));
                }
                if quiets && tmove is None && (exists|x: u16| #[trigger] move_listed(refreshed_of(p0), x)) {
                    let x = choose|x: u16| #[trigger] move_listed(refreshed_of(p0), x);
                    if !capture_listed(*position, x) && *movecount < moves@.len() {
                        assert(in_list(moves@, 0, *movecount as int, x));
                    }
                }
            }
        }
        let ghost g = moves@;
        let ghost n0 = *movecount;
        if all_nonzero(moves, *movecount) {
            score_moves(moves, scores, movecount, position, killers, history, tmove);
            *totalmoves = totalmoves.saturating_add(*movecount);
            if *movecount != 0 {
                let ghost h0 = moves@;
                let ghost hs0 = scores@;
                build_max_heap(moves, scores, *movecount);
                proof {
                    lemma_prefix_members(h0, hs0, moves@, scores@, *movecount as int);
                    assert(in_list(h0, 0, *movecount as int, moves@[0]));
                    let j = choose|j: int| 0 <= j < *movecount && #[trigger] h0[j] == moves@[0];
                    lemma_same_prefix_member(h0, g, n0 as int, j);
                    let k = choose|k: int| 0 <= k < n0 && #[trigger] g[k] == h0[j];
                    assert(quiet_listed(*position, g[k]));
                    assert(move_listed(*position, moves@[0]));
                    if *old(movephase) == 1 {
                        crate::movegen::lemma_empty_move_unlisted(p0, *position);
                    }
                }
                *movephase = 4;
                *i = 0;
                proof {
                    assert forall|k: int| 0 <= k <= *movecount - 1 implies scores@[0] >= #[trigger] scores@[k] by {
                        lemma_heap_top(scores@, *movecount - 1, k);
                    }
                }
                return moves[0];
            }
        }
        *movephase = 5;
        return 0;
    }
    if *movephase == 4 {
        if *i >= *movecount - 1 {
            *movephase = 5;
            return 0;
        } else {
            let ghost h0 = moves@;
            let ghost hs0 = scores@;
            next_move(moves, scores, *movecount, *i);
            proof {
                lemma_prefix_members(h0, hs0, moves@, scores@, *movecount - *i);
                assert(in_list(h0, 0, *movecount - *i, moves@[0]));
                let j = choose|j: int| 0 <= j < *movecount - *i && #[trigger] h0[j] == moves@[0];
                assert(in_list(mv0, 0, mc0 as int, moves@[0]));
                let jj = lemma_prefix_pair(h0, hs0, moves@, scores@, *movecount - *i, 0);
                if heap_from(hs0, 0, *movecount - 1 - *i) {
                    lemma_heap_top(hs0, *movecount - 1 - *i, jj);
                }
            }
            *i = *i + 1;
            proof {
                if heap_from(scores@, 0, *movecount - 1 - *i) {
                    assert forall|k: int| 0 <= k <= *movecount - 1 - *i implies scores@[0] >= #[trigger] scores@[k] by {
                        lemma_heap_top(scores@, *movecount - 1 - *i, k);
                    }
                }
            }
            return moves[0];
        }
    }
    0
}

} // verus!
