use oxidized_chess::engine::{is_draw, perft_div, perft_test, BitBoard, Board, TTABLEMASK};
use oxidized_chess::fen::check_fen;
use oxidized_chess::movegen::{generate_captures, generate_moves, generate_quiets, refresh};
use oxidized_chess::moves::{make_move, null_move, Move, MoveStuff};
use oxidized_chess::piececonstants::AttackTables;
use oxidized_chess::search::has_quiets;
use oxidized_chess::uci::start_fen;
use oxidized_chess::zobrist::{castle_key, ep_key, piece_key, side_key};

const KIWIPETE: &str = "r3k2r/p1ppqpb1/bn2pnp1/3PN3/1p2P3/2N2Q1p/PPPBBPPP/R3K2R w KQkq - 0 1";

fn tables() -> AttackTables {
    AttackTables::new().expect("the magic numbers index every occupancy")
}

fn board_from(fen: &str) -> Board {
    let mut b = Board::default();
    assert!(check_fen(&b, fen));
    b.parse_fen(fen.to_string());
    b
}

fn bit(s: u32) -> u64 {
    1u64 << s
}

fn legal_moves(t: &AttackTables, b: &mut Board) -> Vec<u16> {
    let mut list = vec![0u16; 256];
    let n = generate_moves(t, b, &mut list);
    list.truncate(n);
    list
}

fn find(t: &AttackTables, b: &mut Board, text: &str) -> u16 {
    legal_moves(t, b)
        .into_iter()
        .find(|m| m.to_uci() == text)
        .expect("the move is generated")
}

fn perft(t: &AttackTables, b: Board, depth: usize) -> u64 {
    let mut positions = vec![Board::default(); depth + 1];
    positions[0] = b;
    let mut lists = vec![vec![0u16; 256]; depth + 1];
    let mut ply = 0usize;
    perft_test(t, &mut positions, &mut lists, &mut ply, depth)
}

fn same_position(a: &Board, b: &Board) {
    assert_eq!(a.pieceboards, b.pieceboards);
    assert_eq!(a.occupancies, b.occupancies);
    assert_eq!(a.side, b.side);
    assert_eq!(a.castle, b.castle);
    assert_eq!(a.enpassant, b.enpassant);
    assert_eq!(a.key, b.key);
}

#[test]
fn start_fen_text() {
    assert_eq!(start_fen(), "rnbqkbnr/pppppppp/8/8/8/8/PPPPPPPP/RNBQKBNR w KQkq - 0 1");
}

#[test]
fn parse_fen_start_position() {
    let b = board_from(start_fen());
    assert_eq!(b.pieceboards[0], 0x00FF_0000_0000_0000);
    assert_eq!(b.pieceboards[6], 0x0000_0000_0000_FF00);
    assert_eq!(b.pieceboards[5], bit(60));
    assert_eq!(b.pieceboards[11], bit(4));
    assert_eq!(b.pieceboards[3], bit(56) | bit(63));
    assert_eq!(b.occupancies[0], 0xFFFF_0000_0000_0000);
    assert_eq!(b.occupancies[1], 0x0000_0000_0000_FFFF);
    assert_eq!(b.occupancies[2], 0xFFFF_0000_0000_FFFF);
    assert_eq!(b.side, Some(0));
    assert_eq!(b.castle, 15);
    assert_eq!(b.enpassant, 0);
    assert_ne!(b.key, 0);
}

#[test]
fn parse_fen_fields() {
    let b = board_from("4k3/8/8/3pP3/8/8/8/4K3 w - d6 0 1");
    assert_eq!(b.side, Some(0));
    assert_eq!(b.castle, 0);
    assert_eq!(b.enpassant, bit(19));
    assert_eq!(b.pieceboards[0], bit(28));
    assert_eq!(b.pieceboards[6], bit(27));
    let k = piece_key(0, 28) ^ piece_key(6, 27) ^ piece_key(5, 60) ^ piece_key(11, 4) ^ castle_key(0) ^ ep_key(3);
    assert_eq!(b.key, k);
    let black = board_from("4k3/8/8/3pP3/8/8/8/4K3 b Kq - 0 1");
    assert_eq!(black.side, Some(1));
    assert_eq!(black.castle, 1 | 8);
    assert_eq!(black.key, (k ^ ep_key(3) ^ castle_key(0)) ^ side_key() ^ castle_key(9));
}

#[test]
fn check_fen_rejects_malformed_text() {
    let b = Board::default();
    assert!(check_fen(&b, start_fen()));
    assert!(!check_fen(&b, "rnbqkbnr/pppppppp/8/8/8/8/PPPPPPPP/RNBQKBNR"));
    assert!(!check_fen(&b, ""));
}

#[test]
fn zobrist_keys_differ() {
    assert_ne!(piece_key(0, 0), piece_key(0, 1));
    assert_ne!(piece_key(0, 0), piece_key(1, 0));
    assert_ne!(castle_key(1), castle_key(2));
    assert_ne!(ep_key(0), ep_key(7));
    assert_ne!(side_key(), 0);
    assert_eq!(piece_key(3, 17), piece_key(3, 17));
}

#[test]
fn move_packing_round_trip() {
    let m: Move = <u16 as MoveStuff>::new(52, 36, 0, 0, 0, 1);
    assert_eq!(m.get_initial(), 52);
    assert_eq!(m.get_final(), 36);
    assert_eq!(m.get_extra(), 1);
    let p: Move = <u16 as MoveStuff>::new(12, 4, 1, 1, 1, 1);
    assert_eq!(p.get_initial(), 12);
    assert_eq!(p.get_final(), 4);
    assert_eq!(p.get_extra(), 15);
}

#[test]
fn move_text() {
    let m: Move = <u16 as MoveStuff>::new(52, 36, 0, 0, 0, 1);
    assert_eq!(m.to_uci(), "e2e4");
    let q: Move = <u16 as MoveStuff>::new(12, 4, 0, 1, 1, 1);
    assert_eq!(q.to_uci(), "e7e8q");
    let n: Move = <u16 as MoveStuff>::new(12, 5, 1, 1, 0, 0);
    assert_eq!(n.to_uci(), "e7f8n");
    let c: Move = <u16 as MoveStuff>::new(60, 62, 0, 0, 1, 0);
    assert_eq!(c.to_uci(), "e1g1");
}

#[test]
fn start_position_has_twenty_moves() {
    let t = tables();
    let mut b = board_from(start_fen());
    let moves = legal_moves(&t, &mut b);
    assert_eq!(moves.len(), 20);
    let texts: Vec<String> = moves.iter().map(|m| m.to_uci()).collect();
    for m in ["e2e4", "e2e3", "g1f3", "b1c3", "a2a4", "h2h3"] {
        assert!(texts.iter().any(|t| t == m), "{} missing", m);
    }
    let mut caps = vec![0u16; 256];
    assert_eq!(generate_captures(&t, &mut b, &mut caps), 0);
    let mut quiets = vec![0u16; 256];
    assert_eq!(generate_quiets(&t, &mut b, &mut quiets, 0), 20);
    assert!(has_quiets(&t, &mut b));
}

#[test]
fn refresh_start_position_masks() {
    let t = tables();
    let mut b = board_from(start_fen());
    refresh(&t, &mut b);
    // nothing gives check: the check mask lets every square through
    assert_eq!(b.movemasks[1], u64::MAX);
    assert_eq!(b.movemasks[2], 0);
    assert_eq!(b.movemasks[3], 0);
    // the king has no room: only the squares of the enemy king are gathered
    assert_eq!(b.movemasks[0], bit(3) | bit(5) | bit(11) | bit(12) | bit(13));
    assert_eq!(b.movemasks[4], 0);
}

#[test]
fn refresh_in_check_by_a_rook() {
    let t = tables();
    let mut b = board_from("4k3/8/8/8/8/8/8/4K2r w - - 0 1");
    refresh(&t, &mut b);
    // the check mask runs from the king to the checking rook
    assert_eq!(b.movemasks[1], bit(61) | bit(62) | bit(63));
    // the rook sees through the king: d1 is banned too
    assert!(b.movemasks[0] & bit(59) != 0);
    assert_eq!(b.movemasks[4], bit(51) | bit(52) | bit(53));
    let mut list = vec![0u16; 256];
    assert_eq!(generate_moves(&t, &mut b, &mut list), 3);
}

#[test]
fn pinned_piece_keeps_to_its_line() {
    let t = tables();
    // the white bishop on e2 is pinned by the rook on e8
    let mut b = board_from("4r1k1/8/8/8/8/8/4B3/4K3 w - - 0 1");
    refresh(&t, &mut b);
    assert!(b.movemasks[2] & bit(52) != 0);
    let moves = legal_moves(&t, &mut b);
    assert!(moves.iter().all(|m| m.get_initial() != 52));
}

#[test]
fn make_move_matches_parsed_position() {
    let t = tables();
    let mut b = board_from(start_fen());
    let m = find(&t, &mut b, "e2e4");
    make_move(&mut b, &m);
    let expected = board_from("rnbqkbnr/pppppppp/8/8/4P3/8/PPPP1PPP/RNBQKBNR b KQkq e3 0 1");
    same_position(&b, &expected);
    let r = find(&t, &mut b, "g8f6");
    make_move(&mut b, &r);
    let expected = board_from("rnbqkb1r/pppppppp/5n2/8/4P3/8/PPPP1PPP/RNBQKBNR w KQkq - 1 2");
    same_position(&b, &expected);
}

#[test]
fn capture_castle_and_promotion_keep_the_key() {
    let t = tables();
    let mut b = board_from(KIWIPETE);
    let castle = find(&t, &mut b, "e1g1");
    make_move(&mut b, &castle);
    let expected = board_from("r3k2r/p1ppqpb1/bn2pnp1/3PN3/1p2P3/2N2Q1p/PPPBBPPP/R4RK1 b kq - 1 1");
    same_position(&b, &expected);

    let mut c = board_from(KIWIPETE);
    let capture = find(&t, &mut c, "e5f7");
    make_move(&mut c, &capture);
    let expected = board_from("r3k2r/p1ppqNb1/bn2pnp1/3P4/1p2P3/2N2Q1p/PPPBBPPP/R3K2R b KQkq - 0 1");
    same_position(&c, &expected);

    let mut p = board_from("8/4P1k1/8/8/8/8/8/4K3 w - - 0 1");
    let promote = find(&t, &mut p, "e7e8q");
    make_move(&mut p, &promote);
    let expected = board_from("4Q3/6k1/8/8/8/8/8/4K3 b - - 0 1");
    same_position(&p, &expected);
}

#[test]
fn en_passant_capture() {
    let t = tables();
    let mut b = board_from("4k3/8/8/3pP3/8/8/8/4K3 w - d6 0 1");
    let ep = find(&t, &mut b, "e5d6");
    assert_eq!(ep.get_extra(), 5);
    make_move(&mut b, &ep);
    let expected = board_from("4k3/8/3P4/8/8/8/8/4K3 b - - 0 1");
    same_position(&b, &expected);
}

#[test]
fn null_move_twice_gives_back_the_board() {
    let mut b = board_from(start_fen());
    let before = b;
    null_move(&mut b);
    assert_eq!(b.side, Some(1));
    let black = board_from("rnbqkbnr/pppppppp/8/8/8/8/PPPPPPPP/RNBQKBNR b KQkq - 0 1");
    assert_eq!(b.key, black.key);
    null_move(&mut b);
    same_position(&b, &before);
}

#[test]
fn perft_start_position() {
    let t = tables();
    let b = board_from(start_fen());
    assert_eq!(perft(&t, b, 1), 1);
    assert_eq!(perft(&t, b, 2), 20);
    assert_eq!(perft(&t, b, 3), 400);
    assert_eq!(perft(&t, b, 4), 8902);
}

#[test]
fn perft_kiwipete() {
    let t = tables();
    let b = board_from(KIWIPETE);
    assert_eq!(perft(&t, b, 2), 48);
    assert_eq!(perft(&t, b, 3), 2039);
}

#[test]
fn perft_div_start_position() {
    let t = tables();
    let b = board_from(start_fen());
    let mut positions = vec![Board::default(); 4];
    positions[0] = b;
    let mut lists = vec![vec![0u16; 256]; 4];
    let mut ply = 0usize;
    let counts = perft_div(&t, &mut positions, &mut lists, &mut ply, 3);
    assert_eq!(ply, 0);
    assert_eq!(counts.len(), 20);
    assert_eq!(counts.iter().map(|c| c.1).sum::<u64>(), 400);
    assert!(counts.iter().all(|c| c.1 == 20));
    for (k, c) in counts.iter().enumerate() {
        assert_eq!(c.0, lists[0][k]);
    }
    let mut texts: Vec<String> = counts.iter().map(|c| c.0.to_uci()).collect();
    texts.sort();
    assert!(texts.contains(&"e2e4".to_string()) && texts.contains(&"g1f3".to_string()));
}

#[test]
fn perft_div_depth_two_pairs_each_root_move_with_one() {
    let t = tables();
    let b = board_from(start_fen());
    let mut positions = vec![b; 64];
    let mut lists = vec![vec![0u16; 256]; 64];
    let mut ply = 0usize;
    let counts = perft_div(&t, &mut positions, &mut lists, &mut ply, 2);
    assert_eq!(counts.len(), 20);
    for (k, c) in counts.iter().enumerate() {
        assert_eq!(*c, (lists[0][k], 1));
    }
}

#[test]
fn fifty_moves_without_a_capture_or_pawn_move_draw() {
    let a = board_from(start_fen());
    let stack = vec![Board::default(), a];
    assert!(is_draw(&stack, 1, 50));
    assert!(!is_draw(&stack, 1, 49));
}

#[test]
fn draw_by_repeated_key() {
    let a = board_from(start_fen());
    let mut b = a;
    b.key ^= 1;
    let stack = vec![a, b, b, a];
    assert!(is_draw(&stack, 3, 3));
    assert!(!is_draw(&stack, 3, 2));
    assert!(!is_draw(&stack, 2, 0));
    assert!(is_draw(&stack, 2, 1));
}

#[test]
fn board_queries() {
    let t = tables();
    let b = board_from(KIWIPETE);
    // the white knight on e5 (28) is a knight; the black pawn on b4 (33) a pawn
    assert_eq!(b.piece_on(28), 1);
    assert_eq!(b.piece_on(33), 0);
    assert_eq!(b.get_attacker(28), 1);
    assert_eq!(b.get_target(13), Some(6));
    assert_eq!(b.get_target(35), None);
    assert!(!b.is_king_attacked(&t));
    assert_eq!(b.hash(), (b.key as usize) & TTABLEMASK);
    let board = b.attack_board(&t);
    for s in 0..64usize {
        assert_eq!(board & bit(s as u32) != 0, b.is_square_attacked(&t, s));
    }
    let checked = board_from("4k3/8/8/8/8/8/4r3/4K3 w - - 0 1");
    assert!(checked.is_king_attacked(&t));
}

#[test]
fn repeat_of_reversible_moves() {
    let a = board_from(start_fen());
    let knight_out = board_from("rnbqkbnr/pppppppp/8/8/8/5N2/PPPPPPPP/RNBQKB1R b KQkq - 1 1");
    let pawn_push = board_from("rnbqkbnr/pppppppp/8/8/4P3/8/PPPP1PPP/RNBQKBNR b KQkq - 0 1");
    assert!(a.is_repeat(&knight_out));
    assert!(!a.is_repeat(&pawn_push));
}

#[test]
fn bitboard_primitives() {
    let mut x: u64 = 0;
    x.set_bit(9);
    assert_eq!(x, bit(9));
    assert_eq!(x.get_bit(9), 1);
    assert_eq!(x.get_bit(10), 0);
    x.pop_bit(9);
    assert_eq!(x, 0);
    let a_file: u64 = 0x0101_0101_0101_0101;
    let h_file: u64 = a_file << 7;
    assert_eq!(a_file.left(), 0);
    assert_eq!(h_file.right(), 0);
    assert_eq!(a_file.right(), a_file << 1);
    assert_eq!(h_file.left(), h_file >> 1);
}

#[test]
fn no_quiet_move_when_only_a_capture_is_left() {
    let t = tables();
    let mut b = board_from("7k/8/8/8/8/8/6q1/7K w - - 0 1");
    assert!(!has_quiets(&t, &mut b));
    let moves = legal_moves(&t, &mut b);
    assert_eq!(moves.len(), 1);
    assert_eq!(moves[0].to_uci(), "h1g2");
}

#[test]
fn generated_moves_are_distinct() {
    let t = tables();
    for fen in [start_fen(), KIWIPETE, "8/2p5/3p4/KP5r/1R3p1k/8/4P1P1/8 w - - 0 1"] {
        let mut b = board_from(fen);
        let moves = legal_moves(&t, &mut b);
        for i in 0..moves.len() {
            for j in i + 1..moves.len() {
                assert_ne!(moves[i], moves[j]);
            }
        }
    }
}

#[test]
fn perft_endgame_position() {
    let t = tables();
    let b = board_from("8/2p5/3p4/KP5r/1R3p1k/8/4P1P1/8 w - - 0 1");
    assert_eq!(perft(&t, b, 2), 14);
    assert_eq!(perft(&t, b, 3), 191);
    assert_eq!(perft(&t, b, 4), 2812);
}
