use std::time::Instant;

use oxidized_chess::engine::{Board, TTABLEMASK};
use oxidized_chess::eval::{draw_score, EvalWeights};
use oxidized_chess::fen::check_fen;
use oxidized_chess::movegen::generate_moves;
use oxidized_chess::moves::MoveStuff;
use oxidized_chess::ordering::{build_max_heap, mvv_lva, next_move, score_moves, PIECEWEIGHT};
use oxidized_chess::piececonstants::AttackTables;
use oxidized_chess::search::{negamax, quiescent, search_position, zerowindow, SearchInfo, MATESCORE, MAXPLY};
use oxidized_chess::ttable::{crude_full, hash, TableEntry};
use oxidized_chess::uci::{check_clock, communicate, go_limits, parse_move, parse_position, parse_unsigned, split_fields, start_fen};

const KIWIPETE: &str = "r3k2r/p1ppqpb1/bn2pnp1/3PN3/1p2P3/2N2Q1p/PPPBBPPP/R3K2R w KQkq - 0 1";

fn tables() -> AttackTables {
    AttackTables::new().expect("the magic numbers index every occupancy")
}

fn board_from(fen: &str) -> Board {
    let mut b = Board::default();
    assert!(check_fen(&b, fen));
    b.parse_fen(fen.to_string());
    b
}

fn legal_moves(t: &AttackTables, b: &mut Board) -> Vec<u16> {
    let mut list = vec![0u16; 256];
    let n = generate_moves(t, b, &mut list);
    list.truncate(n);
    list
}

fn find(t: &AttackTables, b: &mut Board, text: &str) -> u16 {
    legal_moves(t, b)
        .into_iter()
        .find(|m| m.to_uci() == text)
        .expect("the move is generated")
}

fn empty_table() -> Vec<TableEntry> {
    vec![TableEntry::new(); TTABLEMASK + 1]
}

#[test]
fn table_entry_read_after_write() {
    let mut e = TableEntry::new();
    assert_eq!(e.read_value(0, 1), Some(1));
    assert_eq!(e.read_move(0), None);
    e.set_value(42, 77, 5, 120);
    assert_eq!(e.read_value(42, 5), Some(120));
    assert_eq!(e.read_value(42, 3), Some(120));
    assert_eq!(e.read_value(42, 6), None);
    assert_eq!(e.read_value(43, 1), None);
    assert_eq!(e.read_move(42), Some(77));
    assert_eq!(e.read_move(43), None);
    // a shallower inexact result for the same key keeps the stored score
    e.set_value(42, 0, 2, 81);
    assert_eq!(e.read_value(42, 5), Some(120));
    assert_eq!(e.read_move(42), Some(77));
    // an exact score replaces it
    e.set_value(42, 0, 2, 80);
    assert_eq!(e.read_value(42, 2), Some(80));
    assert_eq!(e.depth, 2);
    e.clear_move();
    assert_eq!(e.read_move(42), None);
    assert_eq!(e.key, 42);
    e.clear_entry();
    assert_eq!((e.key, e.bestmove, e.depth, e.score), (0, 0, 1, 1));
}

#[test]
fn repetition_marker_is_never_overwritten() {
    let mut e = TableEntry::new();
    e.set_value(9, u16::MAX, usize::MAX, 0);
    assert_eq!(e.read_move(9), None);
    let before = (e.key, e.bestmove, e.depth, e.score);
    e.set_value(10, 5, 3, 44);
    assert_eq!((e.key, e.bestmove, e.depth, e.score), before);
}

#[test]
fn table_index_and_fill() {
    assert_eq!(hash(0x1234_5678_9ABC_DEF0), 0x1234_5678_9ABC_DEF0usize & TTABLEMASK);
    assert_eq!(hash(TTABLEMASK as u64 + 1), 0);
    let mut table = vec![TableEntry::new(); 1200];
    assert_eq!(crude_full(&table), 0);
    table[0].key = 5;
    table[999].key = 6;
    table[1000].key = 7;
    assert_eq!(crude_full(&table), 2);
}

#[test]
fn victim_and_attacker_order() {
    assert_eq!(mvv_lva(0, 4), 505);
    assert_eq!(mvv_lva(4, 0), 101);
    assert_eq!(mvv_lva(6, 10), 505);
    assert!(mvv_lva(0, 1) > mvv_lva(1, 1));
    assert!(mvv_lva(5, 4) > mvv_lva(0, 3));
    assert_eq!(PIECEWEIGHT, [100, 300, 300, 500, 900, 10000]);
}

#[test]
fn heap_hands_out_scores_in_order() {
    let mut moves: Vec<u16> = vec![11, 12, 13, 14, 15, 16, 17];
    let mut scores: Vec<i32> = vec![5, 1, 9, 3, 7, 2, 8];
    let size = moves.len();
    build_max_heap(&mut moves, &mut scores, size);
    assert_eq!(scores[0], 9);
    let mut handed = Vec::new();
    for i in 0..size - 1 {
        handed.push(scores[0]);
        next_move(&mut moves, &mut scores, size, i);
    }
    handed.push(scores[0]);
    assert_eq!(handed, vec![9, 8, 7, 5, 3, 2, 1]);
    assert_eq!(scores, vec![1, 2, 3, 5, 7, 8, 9]);
    assert_eq!(moves, vec![12, 16, 14, 11, 15, 17, 13]);
}

#[test]
fn move_scores() {
    let t = tables();
    let mut b = board_from(KIWIPETE);
    let mut moves = legal_moves(&t, &mut b);
    let count = moves.len();
    let killer = find(&t, &mut b, "a2a3");
    let quiet = find(&t, &mut b, "b2b3");
    let mut history = vec![vec![0usize; 64]; 64];
    history[quiet.get_initial() as usize][quiet.get_final() as usize] = 7;
    let killers = vec![killer, 0];
    let mut scores = vec![0i32; count];
    let mut n = count;
    score_moves(&mut moves, &mut scores, &mut n, &b, &killers, &history, None);
    assert_eq!(n, count);
    let score_of = |text: &str| -> i32 {
        let k = moves.iter().position(|m| m.to_uci() == text).unwrap();
        scores[k]
    };
    assert_eq!(score_of("a2a3"), 10000000);
    assert_eq!(score_of("b2b3"), 7);
    assert_eq!(score_of("e1g1"), 1000);
    assert_eq!(score_of("e5f7"), 104);
    assert_eq!(score_of("f3f6"), mvv_lva(4, 1));
    assert_eq!(score_of("g2h3"), mvv_lva(0, 0));
    assert_eq!(score_of("g2g3"), 0);
}

#[test]
fn transposition_move_leaves_the_list() {
    let t = tables();
    let mut b = board_from(KIWIPETE);
    let mut moves = legal_moves(&t, &mut b);
    let count = moves.len();
    let tmove = find(&t, &mut b, "e2a6");
    let killers = vec![0u16, 0];
    let history = vec![vec![0usize; 64]; 64];
    let mut scores = vec![0i32; count];
    let mut n = count;
    score_moves(&mut moves, &mut scores, &mut n, &b, &killers, &history, Some(tmove));
    assert_eq!(n, count - 1);
    assert!(moves[..n].iter().all(|&m| m != tmove));
}

#[test]
fn evaluation_of_symmetric_and_lopsided_positions() {
    let t = tables();
    let w = EvalWeights::material();
    let mut start = board_from(start_fen());
    assert_eq!(start.evaluate(&t, &w, 0), 0);
    let mut start_black = board_from("rnbqkbnr/pppppppp/8/8/8/8/PPPPPPPP/RNBQKBNR b KQkq - 0 1");
    assert_eq!(start_black.evaluate(&t, &w, 0), 0);
    let mut queen_up = board_from("4k3/8/8/8/8/8/8/3QK3 w - - 0 1");
    let white_view = queen_up.evaluate(&t, &w, 3);
    assert!(white_view > 500);
    let mut queen_up_black = board_from("4k3/8/8/8/8/8/8/3QK3 b - - 0 1");
    assert!(queen_up_black.evaluate(&t, &w, 3) < -500);
    let mut lone_knight = board_from("4k3/8/8/8/8/8/8/3NK3 w - - 0 1");
    assert_eq!(lone_knight.evaluate(&t, &w, 7), draw_score(7));
    assert_eq!(draw_score(7), 0);
}

#[test]
fn exchange_evaluation() {
    let t = tables();
    let mut b = board_from(KIWIPETE);
    let quiet = find(&t, &mut b, "a2a3");
    assert!(b.see(&t, &quiet, 0));
    assert!(!b.see(&t, &quiet, 1));
    let pawn_takes_pawn = find(&t, &mut b, "g2h3");
    assert!(b.see(&t, &pawn_takes_pawn, 0));
    let knight_takes_defended_pawn = find(&t, &mut b, "e5f7");
    assert!(!b.see(&t, &knight_takes_defended_pawn, 200));
    assert!(!b.see(&t, &knight_takes_defended_pawn, 0));
}

#[test]
fn fields_split_at_spaces() {
    let f = split_fields("position startpos moves e2e4");
    assert_eq!(f, vec!["position", "startpos", "moves", "e2e4"]);
    assert_eq!(split_fields("a  b"), vec!["a", "", "b"]);
    assert_eq!(split_fields(""), vec![""]);
}

#[test]
fn moves_are_read_in_coordinate_notation() {
    let t = tables();
    let mut b = board_from(start_fen());
    let m = parse_move(&t, "e2e4".to_string(), &mut b);
    assert_eq!(m.get_initial(), 52);
    assert_eq!(m.get_final(), 36);
    assert_eq!(m.get_extra(), 1);
    assert_eq!(parse_move(&t, "e2e5".to_string(), &mut b), 0);
    assert_eq!(parse_move(&t, "E2E4".to_string(), &mut b), 0);
}

#[test]
fn position_command_sets_up_the_board() {
    let t = tables();
    let mut table = empty_table();
    let mut b = Board::default();
    let mut halfcount = 0usize;
    parse_position(&t, "position startpos".to_string(), &mut b, &mut halfcount, &mut table);
    let start = board_from(start_fen());
    assert_eq!(b.pieceboards, start.pieceboards);
    assert_eq!(b.key, start.key);
    assert_eq!(halfcount, 1);

    let mut b = Board::default();
    parse_position(
        &t,
        "position startpos moves e2e4 e7e5".to_string(),
        &mut b,
        &mut halfcount,
        &mut table,
    );
    let after = board_from("rnbqkbnr/pppp1ppp/8/4p3/4P3/8/PPPP1PPP/RNBQKBNR w KQkq e6 0 2");
    assert_eq!(b.pieceboards, after.pieceboards);
    assert_eq!(b.key, after.key);
    assert_eq!(halfcount, 1);

    let mut b = Board::default();
    parse_position(
        &t,
        format!("position fen {} moves c3b1", KIWIPETE),
        &mut b,
        &mut halfcount,
        &mut table,
    );
    assert_eq!(b.side, Some(1));
    assert_eq!(halfcount, 2);
}

#[test]
fn position_command_marks_repetitions() {
    let t = tables();
    let mut table = empty_table();
    let mut b = Board::default();
    let mut halfcount = 0usize;
    parse_position(
        &t,
        "position startpos moves g1f3 g8f6 f3g1 f6g8".to_string(),
        &mut b,
        &mut halfcount,
        &mut table,
    );
    let start = board_from(start_fen());
    assert_eq!(b.key, start.key);
    assert_eq!(halfcount, 5);
    let after_one = board_from("rnbqkbnr/pppppppp/8/8/8/5N2/PPPPPPPP/RNBQKB1R b KQkq - 1 1");
    let entry = table[after_one.hash()];
    assert_eq!(entry.key, after_one.key);
    assert_eq!(entry.bestmove, u16::MAX);
    assert_eq!(entry.score, 0);
}

#[test]
fn malformed_position_command_is_ignored() {
    let t = tables();
    let mut table = empty_table();
    let mut b = Board::default();
    let mut halfcount = 3usize;
    parse_position(&t, "position".to_string(), &mut b, &mut halfcount, &mut table);
    assert_eq!(halfcount, 0);
    assert_eq!(b.side, None);
    parse_position(&t, "position fen 8/8 w".to_string(), &mut b, &mut halfcount, &mut table);
    assert_eq!(b.side, None);
}

#[test]
fn time_limit_stops_the_search() {
    let mut stopped = false;
    communicate(&mut stopped, 10, 3600000);
    assert!(!stopped);
    communicate(&mut stopped, 3600000, 3600000);
    assert!(stopped);
    communicate(&mut stopped, 10, 3600000);
    assert!(stopped);
    let mut clock_stopped = false;
    check_clock(&mut clock_stopped, &Instant::now(), None);
    assert!(!clock_stopped);
    check_clock(&mut clock_stopped, &Instant::now(), Some(0));
    assert!(clock_stopped);
}

#[test]
fn search_finds_mate_in_one() {
    let t = tables();
    let w = EvalWeights::material();
    let mut table = empty_table();
    let mut b = board_from("6k1/5ppp/8/8/8/8/8/R5K1 w - - 0 1");
    let mut infos: Vec<SearchInfo> = Vec::new();
    let best = search_position(&t, &w, &mut b, 3, Some(15000), &mut table, 1, &mut infos);
    assert_eq!(best.to_uci(), "a1a8");
    assert!(!infos.is_empty());
    assert!(infos.len() <= 3);
    let last = infos.last().unwrap();
    assert!(last.mate.is_some());
    assert!(last.score > -MATESCORE / 2);
}

#[test]
fn search_returns_a_legal_move() {
    let t = tables();
    let w = EvalWeights::material();
    let mut table = empty_table();
    let mut b = board_from(start_fen());
    let mut infos: Vec<SearchInfo> = Vec::new();
    let best = search_position(&t, &w, &mut b, 2, Some(15000), &mut table, 1, &mut infos);
    let mut copy = board_from(start_fen());
    assert!(legal_moves(&t, &mut copy).contains(&best));
    assert_eq!(infos.len(), 2);
    assert_eq!(infos[0].depth, 1);
    assert_eq!(infos[1].depth, 2);
    assert!(!infos[1].pv.is_empty());
}

#[test]
fn position_command_with_a_fen_alone() {
    let t = tables();
    let mut table = empty_table();
    let mut b = Board::default();
    let mut halfcount = 0usize;
    parse_position(&t, format!("position fen {}", KIWIPETE), &mut b, &mut halfcount, &mut table);
    let expected = board_from(KIWIPETE);
    assert_eq!(b.pieceboards, expected.pieceboards);
    assert_eq!(b.key, expected.key);
    assert_eq!(b.castle, 15);
    assert_eq!(halfcount, 1);
}

#[test]
fn exchange_on_a_defended_square() {
    let t = tables();
    // the white rook takes a pawn defended by a pawn: it loses the exchange
    let mut b = board_from("4k3/8/2p5/3p4/8/8/3R4/4K3 w - - 0 1");
    let rook_takes = find(&t, &mut b, "d2d5");
    assert!(b.see(&t, &rook_takes, 0) == false);
    assert!(b.see(&t, &rook_takes, -400));
    // an undefended pawn is won outright
    let mut c = board_from("4k3/8/8/3p4/8/8/3R4/4K3 w - - 0 1");
    let free_pawn = find(&t, &mut c, "d2d5");
    assert!(c.see(&t, &free_pawn, 100));
    assert!(!c.see(&t, &free_pawn, 101));
}

#[test]
fn material_weights_are_flat_piece_values() {
    let w = EvalWeights::material();
    assert_eq!(w.phase, [0, 1, 1, 2, 4, 0]);
    assert!(w.midgame[4].iter().all(|&v| v == 1025));
    assert!(w.endgame[0].iter().all(|&v| v == 94));
    assert_eq!(w.structure, [[10, -10, -10], [20, -20, -20]]);
    assert_eq!(w.mobility_scale, 4);
    assert_eq!(w.midgame_phase, 24);
    assert_eq!(w.endgame_phase, 0);
}

struct Stacks {
    ps: Vec<Board>,
    ms: Vec<Vec<u16>>,
    sc: Vec<Vec<i32>>,
    kt: Vec<Vec<u16>>,
    ht: Vec<Vec<Vec<usize>>>,
    tt: Vec<TableEntry>,
}

fn stacks_with(ply: usize, b: Board) -> Stacks {
    let mut ps = vec![Board::default(); MAXPLY];
    ps[ply] = b;
    Stacks {
        ps,
        ms: vec![vec![0u16; 256]; MAXPLY],
        sc: vec![vec![0i32; 256]; MAXPLY],
        kt: vec![vec![0u16; 2]; MAXPLY],
        ht: vec![vec![vec![0usize; 64]; 64]; 2],
        tt: empty_table(),
    }
}

fn run_negamax(s: &mut Stacks, depth: usize, ply: usize) -> (i32, usize) {
    let t = tables();
    let w = EvalWeights::material();
    let mut count = 0usize;
    let mut pf = (0u8, true);
    let mut stopped = false;
    let r = negamax(
        &t, &w, &mut s.ps, &mut count, &mut s.ms, &mut s.sc, depth, ply, -100000000, 100000000, &mut s.tt, 0,
        &mut s.kt, &mut s.ht, &mut pf, 0, &mut stopped, Instant::now(), None,
    );
    assert!(!stopped);
    (r, count)
}

#[test]
fn mated_node_scores_the_mate_and_stores_it() {
    let b = board_from("rnb1kbnr/pppp1ppp/8/4p3/6Pq/5P2/PPPPP2P/RNBQKBNR w KQkq - 1 3");
    let key = b.key;
    let mut s = stacks_with(1, b);
    let (r, _) = run_negamax(&mut s, 1, 1);
    assert_eq!(r, 4 * (MATESCORE + 1));
    assert_eq!(s.tt[hash(key)].read_value(key, 1), Some(r));
    assert_eq!(s.tt[hash(key)].read_move(key), None);
}

#[test]
fn stalemated_node_scores_a_draw_and_stores_it() {
    let b = board_from("7k/5Q2/6K1/8/8/8/8/8 b - - 0 1");
    let key = b.key;
    let mut s = stacks_with(2, b);
    let (r, _) = run_negamax(&mut s, 2, 2);
    assert_eq!(r, draw_score(2));
    assert_eq!(s.tt[hash(key)].read_value(key, 2), Some(r));
    assert_eq!(s.tt[hash(key)].read_move(key), None);
}

#[test]
fn last_ply_counts_one_node_and_changes_nothing() {
    let b = board_from(start_fen());
    let mut s = stacks_with(MAXPLY - 1, b);
    let before = s.tt.clone();
    let (r, count) = run_negamax(&mut s, 3, MAXPLY - 1);
    assert_eq!(r, 0);
    assert_eq!(count, 1);
    assert!(s.tt.iter().zip(before.iter()).all(|(a, b)| a.key == b.key && a.score == b.score));
}

#[test]
fn null_window_search_of_a_mated_node() {
    let t = tables();
    let w = EvalWeights::material();
    let b = board_from("rnb1kbnr/pppp1ppp/8/4p3/6Pq/5P2/PPPPP2P/RNBQKBNR w KQkq - 1 3");
    let key = b.key;
    let mut s = stacks_with(1, b);
    let mut count = 0usize;
    let mut pf = (0u8, true);
    let mut stopped = false;
    let r = zerowindow(
        &t, &w, &mut s.ps, &mut count, &mut s.ms, &mut s.sc, 2, 1, 0, &mut s.tt, 0, &mut s.kt, &mut s.ht,
        &mut pf, 0, &mut stopped, Instant::now(), None,
    );
    assert_eq!(r, 4 * (MATESCORE + 1));
    assert_eq!(s.tt[hash(key)].read_value(key, 2), Some(r));
}

#[test]
fn capture_search_stands_pat_above_the_window() {
    let t = tables();
    let w = EvalWeights::material();
    let b = board_from(start_fen());
    let mut s = stacks_with(0, b);
    let mut count = 0usize;
    let mut stopped = false;
    let r = quiescent(
        &t, &w, &mut s.ps, &mut count, &mut s.ms, &mut s.sc, 0, 0, -2000, -1000, &mut s.tt, &mut s.kt,
        &mut s.ht, &mut stopped, Instant::now(), None,
    );
    assert_eq!(r, ((-1000 + 1) & !3) + 1);
    assert_eq!(count, 1);
    assert!(s.tt.iter().all(|e| e.key == 0 && e.score == 1));
}

#[test]
fn exchange_evaluation_is_monotone_in_the_threshold() {
    let t = tables();
    let mut b = board_from(KIWIPETE);
    for text in ["g2h3", "e5f7", "e5g6", "d5e6", "a2a3"] {
        let m = find(&t, &mut b, text);
        let mut last = true;
        for threshold in (-1200..=1200).step_by(50) {
            let now = b.see(&t, &m, threshold);
            assert!(last || !now, "{} passes {} but not a lower threshold", text, threshold);
            last = now;
        }
    }
}

#[test]
fn evaluation_is_on_the_score_grid() {
    let t = tables();
    let w = EvalWeights::material();
    for fen in [KIWIPETE, start_fen(), "7k/5Q2/6K1/8/8/8/8/8 b - - 0 1"] {
        let mut b = board_from(fen);
        assert_eq!(b.evaluate(&t, &w, 3) % 4, 0);
    }
}

#[test]
fn go_command_limits() {
    assert_eq!(go_limits("go depth 6", true), Some((6, None)));
    assert_eq!(go_limits("go depth 65", true), None);
    assert_eq!(go_limits("go depth six", true), None);
    assert_eq!(go_limits("go movetime 1500", false), Some((MAXPLY, Some(1500))));
    assert_eq!(go_limits("go wtime 30000 btime 60000", true), Some((MAXPLY, Some(1000))));
    assert_eq!(go_limits("go wtime 30000 btime 60000", false), Some((MAXPLY, Some(2000))));
    assert_eq!(go_limits("go infinite", true), Some((10, None)));
    assert_eq!(go_limits("go", true), None);
    assert_eq!(parse_unsigned(&"+42".to_string(), u64::MAX), Some(42));
    assert_eq!(parse_unsigned(&"18446744073709551616".to_string(), u64::MAX), None);
    assert_eq!(parse_unsigned(&"".to_string(), u64::MAX), None);
}

#[test]
fn null_window_search_lands_on_the_grid_around_beta() {
    let t = tables();
    let w = EvalWeights::material();
    for beta in [-400, 0, 37, 400] {
        let b = board_from(start_fen());
        let key = b.key;
        let mut s = stacks_with(1, b);
        let mut count = 0usize;
        let mut pf = (0u8, true);
        let mut stopped = false;
        let r = zerowindow(
            &t, &w, &mut s.ps, &mut count, &mut s.ms, &mut s.sc, 1, 1, beta, &mut s.tt, 0, &mut s.kt,
            &mut s.ht, &mut pf, 0, &mut stopped, Instant::now(), None,
        );
        let c = (beta + 1) & !3;
        assert!(r == c + 1 || r == c - 5, "beta {} gave {}", beta, r);
        assert_eq!(s.tt[hash(key)].read_value(key, 1), Some(r));
    }
}

#[test]
fn full_window_search_tags_its_bounds() {
    for (alpha, beta) in [(-100000000, 100000000), (-40, 40), (200, 204), (-300, -296)] {
        let b = board_from(KIWIPETE);
        let mut s = stacks_with(1, b);
        let t = tables();
        let w = EvalWeights::material();
        let mut count = 0usize;
        let mut pf = (0u8, true);
        let mut stopped = false;
        let r = negamax(
            &t, &w, &mut s.ps, &mut count, &mut s.ms, &mut s.sc, 2, 1, alpha, beta, &mut s.tt, 0, &mut s.kt,
            &mut s.ht, &mut pf, 0, &mut stopped, Instant::now(), None,
        );
        if r & 3 == 3 {
            assert_eq!(r, ((alpha + 1) & !3) - 1);
        }
        if r & 3 == 1 {
            assert_eq!(r, ((beta + 1) & !3) + 1);
        }
    }
}

#[test]
fn position_command_plays_a_lower_case_move() {
    let t = tables();
    let mut b = Board::default();
    let mut h = 0usize;
    let mut tt = empty_table();
    parse_position(&t, "position startpos moves e2e4".to_string(), &mut b, &mut h, &mut tt);
    let r = board_from("rnbqkbnr/pppppppp/8/8/4P3/8/PPPP1PPP/RNBQKBNR b KQkq e3 0 1");
    assert_eq!(b.pieceboards, r.pieceboards);
    assert_eq!(b.side, Some(1));
    assert_eq!(b.enpassant, 1u64 << 44);
    assert_eq!(b.key, r.key);
    assert_eq!(h, 1);
}

#[test]
fn search_without_a_time_limit_finishes_every_iteration() {
    let t = tables();
    let w = EvalWeights::material();
    let mut table = empty_table();
    let mut b = board_from("6k1/5ppp/8/8/8/8/8/R5K1 w - - 0 1");
    let mut infos: Vec<SearchInfo> = Vec::new();
    let best = search_position(&t, &w, &mut b, 3, None, &mut table, 1, &mut infos);
    assert_eq!(infos.len(), 3);
    for (k, info) in infos.iter().enumerate() {
        assert_eq!(info.depth, k + 1);
    }
    assert_eq!(best.to_uci(), "a1a8");
    assert_eq!(table[hash(b.key)].read_move(b.key), Some(best));
}

#[test]
fn last_ply_accepts_any_window_and_deep_depth() {
    let t = tables();
    let w = EvalWeights::material();
    let b = board_from(start_fen());
    let mut s = stacks_with(MAXPLY - 1, b);
    let mut count = 0usize;
    let mut pf = (0u8, true);
    let mut stopped = false;
    let r = negamax(
        &t, &w, &mut s.ps, &mut count, &mut s.ms, &mut s.sc, 100000, MAXPLY - 1, -2000000000, 2000000000,
        &mut s.tt, 0, &mut s.kt, &mut s.ht, &mut pf, 0, &mut stopped, Instant::now(), None,
    );
    assert_eq!(r, 0);
    assert_eq!(count, 1);
}

#[test]
fn capture_search_of_a_quiet_position_is_its_evaluation() {
    let t = tables();
    let w = EvalWeights::material();
    for (alpha, beta) in [(-100, 100), (-40, 400), (-1000, 1000)] {
        let mut b = board_from(start_fen());
        let e = b.evaluate(&t, &w, 0);
        let mut s = stacks_with(0, b);
        let mut count = 0usize;
        let mut stopped = false;
        let r = quiescent(
            &t, &w, &mut s.ps, &mut count, &mut s.ms, &mut s.sc, 0, 1, alpha, beta, &mut s.tt, &mut s.kt,
            &mut s.ht, &mut stopped, Instant::now(), None,
        );
        let low = (alpha + 1) & !3;
        let expected = if e > low { e } else { low - 1 };
        assert_eq!(r, expected);
    }
}
