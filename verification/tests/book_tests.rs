use std::sync::mpsc;

use rustyfish::book::{parse_book_lines, parse_u64, serialize_book, split_bytes, u64_to_dec,
    BookLine};
use rustyfish::engine::Engine;

fn new_engine(white: &[u8], black: &[u8], draw: &[u8]) -> (Engine, mpsc::Sender<bool>) {
    let (tx, rx) = mpsc::channel();
    let e = Engine::new(rx, &white.to_vec(), &black.to_vec(), &draw.to_vec());
    (e, tx)
}

#[test]
fn parse_u64_accepts_exactly_fitting_numbers() {
    assert_eq!(parse_u64(&b"0".to_vec()), Some(0));
    assert_eq!(parse_u64(&b"18446744073709551615".to_vec()), Some(u64::MAX));
    assert_eq!(parse_u64(&b"18446744073709551616".to_vec()), None);
    assert_eq!(parse_u64(&b"".to_vec()), None);
    assert_eq!(parse_u64(&b"12a".to_vec()), None);
}

#[test]
fn u64_to_dec_prints_canonically() {
    assert_eq!(u64_to_dec(0), b"0".to_vec());
    assert_eq!(u64_to_dec(907), b"907".to_vec());
    assert_eq!(u64_to_dec(u64::MAX), b"18446744073709551615".to_vec());
}

#[test]
fn split_bytes_keeps_empty_parts() {
    let parts = split_bytes(&b"a  b".to_vec(), 0x20);
    let parts: Vec<Vec<u8>> = parts;
    assert_eq!(parts, vec![b"a".to_vec(), b"".to_vec(), b"b".to_vec()]);
}

#[test]
fn serialize_one_line_exactly() {
    let lines = vec![BookLine { hash: 5, moves: vec![b"d4".to_vec(), b"e4".to_vec()] }];
    assert_eq!(serialize_book(&lines), b"5 d4 e4\n".to_vec());
}

#[test]
fn book_round_trip_preserves_the_table() {
    let lines = vec![
        BookLine { hash: 17, moves: vec![b"Nf3".to_vec(), b"e4".to_vec()] },
        BookLine { hash: 907, moves: vec![] },
        BookLine { hash: 18446744073709551615, moves: vec![b"O-O".to_vec()] },
    ];
    let bytes = serialize_book(&lines);
    let back = parse_book_lines(&bytes).expect("a serialized book must parse");
    assert_eq!(back.len(), lines.len());
    for (a, b) in back.iter().zip(lines.iter()) {
        assert_eq!(a.hash, b.hash);
        assert_eq!(a.moves, b.moves);
    }
}

#[test]
fn malformed_book_line_is_refused() {
    assert!(parse_book_lines(&b"12x e4\n".to_vec()).is_none());
    // Empty lines are skipped, well-formed ones kept.
    let ok = parse_book_lines(&b"\n12 e4\n\n".to_vec()).unwrap();
    assert_eq!(ok.len(), 1);
    assert_eq!(ok[0].hash, 12);
}

#[test]
fn book_hit_plays_a_recorded_reply_without_searching() {
    // Learn the starting fingerprint from a bookless engine.
    let (probe_engine, _tx) = new_engine(b"", b"", b"");
    let f0 = probe_engine.fingerprint();
    let mut white_book = f0.to_string().into_bytes();
    white_book.extend_from_slice(b" d4 e4\n");
    let (mut engine, _tx) = new_engine(&white_book, b"", b"");
    let line = engine.calculate_best_move().0.expect("book hit must answer");
    assert!(
        line == b"bestmove e2e4".to_vec() || line == b"bestmove d2d4".to_vec(),
        "unexpected reply: {:?}",
        String::from_utf8_lossy(&line)
    );
    assert!(!engine.out_of_book);
}

#[test]
fn book_probe_falls_back_to_the_draw_table() {
    let (probe_engine, _tx) = new_engine(b"", b"", b"");
    let f0 = probe_engine.fingerprint();
    let mut draw_book = f0.to_string().into_bytes();
    draw_book.extend_from_slice(b" e4\n");
    let (mut engine, _tx) = new_engine(b"", b"", &draw_book);
    let m = engine.get_book_move().expect("draw table must be consulted");
    let _ = m;
    assert!(!engine.out_of_book);
}

#[test]
fn book_latch_never_reopens() {
    let (probe_engine, _tx) = new_engine(b"", b"", b"");
    let f0 = probe_engine.fingerprint();
    let mut white_book = f0.to_string().into_bytes();
    white_book.extend_from_slice(b" e4\n");
    let (mut engine, _tx) = new_engine(&white_book, b"", b"");
    // Leave book coverage: a position that is in no table misses and latches.
    assert!(engine.position(&b"position startpos moves a2a3".to_vec()));
    assert!(engine.get_book_move().is_none());
    assert!(engine.out_of_book);
    // Back at the start the fingerprint is in the table again, but the
    // probe must stay latched out of book.
    engine.new_game();
    assert_eq!(engine.fingerprint(), f0);
    assert!(engine.get_book_move().is_none());
    assert!(engine.out_of_book);
}

#[test]
fn stop_before_go_completes_without_a_report() {
    let (mut engine, tx) = new_engine(b"", b"", b"");
    tx.send(true).unwrap();
    // The probe misses (empty books) and the first deepening round sees
    // the pending stop at once: no round completes, nothing is reported.
    assert_eq!(engine.calculate_best_move().0, None);
    assert!(engine.out_of_book);
}

#[test]
fn position_command_replays_moves_and_rejects_bad_ones() {
    let (mut engine, _tx) = new_engine(b"", b"", b"");
    let f0 = engine.fingerprint();
    assert!(engine.position(&b"position startpos moves e2e4 e7e5".to_vec()));
    assert_ne!(engine.fingerprint(), f0);
    // A malformed move fails that command without crashing.
    assert!(!engine.position(&b"position startpos moves e2e9".to_vec()));
    // An illegal but well-formed move fails too.
    assert!(!engine.position(&b"position startpos moves e2e5".to_vec()));
}
