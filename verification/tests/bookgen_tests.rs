use std::sync::mpsc;

use rustyfish::book::parse_book_lines;
use rustyfish::bookgen::{build_book, lex_leq, parse_pgns, zobrist_table};
use rustyfish::engine::Engine;

fn starting_fingerprint() -> u64 {
    let (_tx, rx) = mpsc::channel();
    let e = Engine::new(rx, &Vec::new(), &Vec::new(), &Vec::new());
    let _keep = _tx;
    e.fingerprint()
}

#[test]
fn lexicographic_order_on_bytes() {
    assert!(lex_leq(&b"d5".to_vec(), &b"e5".to_vec()));
    assert!(!lex_leq(&b"e5".to_vec(), &b"d5".to_vec()));
    assert!(lex_leq(&b"e4".to_vec(), &b"e4".to_vec()));
    assert!(lex_leq(&b"e".to_vec(), &b"e4".to_vec()));
}

#[test]
fn pgn_games_are_bucketed_by_result() {
    let white_win = b"[Event \"t\"]\n[Result \"1-0\"]\n\n1.e4 e5 2.Nf3 Nc6 1-0\n".to_vec();
    let black_win = b"[Result \"0-1\"]\n\n1.d4 d5 0-1\n".to_vec();
    let drawn = b"[Result \"1/2-1/2\"]\n\n1.c4 c5 1/2-1/2\n".to_vec();
    let (white, black, draw) = parse_pgns(&vec![white_win, black_win, drawn]);
    assert_eq!(white, vec![b"e4 e5 Nf3 Nc6".to_vec()]);
    assert_eq!(black, vec![b"d4 d5".to_vec()]);
    assert_eq!(draw, vec![b"c4 c5".to_vec()]);
}

#[test]
fn unknown_result_goes_to_the_draw_bucket() {
    let game = b"[Result \"*\"]\n\n1.g3 g6 1/2-1/2\n".to_vec();
    let (white, black, draw) = parse_pgns(&vec![game]);
    assert!(white.is_empty());
    assert!(black.is_empty());
    assert_eq!(draw, vec![b"g3 g6".to_vec()]);
}

#[test]
fn fingerprint_table_groups_replies_by_position() {
    let games = vec![b"e4 e5".to_vec(), b"e4 d5".to_vec()];
    let table = zobrist_table(&games);
    // Two positions were seen: the start, and the position after e4.
    assert_eq!(table.len(), 2);
    assert!(table[0].hash < table[1].hash);
    let f0 = starting_fingerprint();
    let start = table.iter().find(|l| l.hash == f0).expect("start position recorded");
    assert_eq!(start.moves, vec![b"e4".to_vec()]);
    let after_e4 = table.iter().find(|l| l.hash != f0).unwrap();
    assert_eq!(after_e4.moves, vec![b"d5".to_vec(), b"e5".to_vec()]);
}

#[test]
fn replies_are_recorded_once() {
    let games = vec![b"e4 e5".to_vec(), b"e4 e5".to_vec()];
    let table = zobrist_table(&games);
    let f0 = starting_fingerprint();
    let start = table.iter().find(|l| l.hash == f0).unwrap();
    assert_eq!(start.moves, vec![b"e4".to_vec()]);
}

#[test]
fn a_built_book_reparses_to_itself() {
    let games = vec![b"e4 e5 Nf3".to_vec(), b"d4 d5 c4".to_vec()];
    let (table, bytes) = build_book(&games);
    let back = parse_book_lines(&bytes).expect("a built book must parse");
    assert_eq!(back.len(), table.len());
    for (a, b) in back.iter().zip(table.iter()) {
        assert_eq!(a.hash, b.hash);
        assert_eq!(a.moves, b.moves);
    }
}

#[test]
fn malformed_notation_stops_only_its_own_game() {
    // The second token is not a legal move; the first was already recorded.
    let games = vec![b"e4 zzz e5".to_vec(), b"d4".to_vec()];
    let table = zobrist_table(&games);
    let f0 = starting_fingerprint();
    let start = table.iter().find(|l| l.hash == f0).unwrap();
    // Both first moves were seen at the start.
    assert_eq!(start.moves, vec![b"d4".to_vec(), b"e4".to_vec()]);
    // `zzz` was recorded at the position after e4, and the replay of that
    // game then stopped, so `e5` was never seen.
    let after_e4 = table.iter().find(|l| l.hash != f0).unwrap();
    assert_eq!(after_e4.moves, vec![b"zzz".to_vec()]);
    assert_eq!(table.len(), 2);
}
