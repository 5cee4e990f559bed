use rustyfish::uci::{bytes_eq, init, isready, trim_bytes, Lexer, Reply};

#[test]
fn identification_lines_are_fixed() {
    let lines = init();
    assert_eq!(lines, vec!["id name RustyFish", "id author Fernando Bandeira", "uciok"]);
    assert_eq!(isready(), "readyok");
}

#[test]
fn trim_strips_ascii_whitespace() {
    assert_eq!(trim_bytes(&b"  uci\r\n".to_vec()), b"uci".to_vec());
    assert_eq!(trim_bytes(&b"\t\n".to_vec()), b"".to_vec());
    assert!(bytes_eq(&trim_bytes(&b"go \n".to_vec()), &b"go".to_vec()));
}

#[test]
fn dispatch_answers_the_fixed_commands() {
    let mut lex = Lexer::new();
    assert!(matches!(lex.interpret(&b"uci\n".to_vec()), Reply::Identify));
    assert!(matches!(lex.interpret(&b"isready\n".to_vec()), Reply::ReadyOk));
    assert!(matches!(lex.interpret(&b"ucinewgame\n".to_vec()), Reply::Silent));
    assert!(matches!(lex.interpret(&b"xyzzy\n".to_vec()), Reply::Silent));
    assert!(matches!(lex.interpret(&b"quit\n".to_vec()), Reply::Bye));
}

#[test]
fn go_without_a_position_stays_silent() {
    let mut lex = Lexer::new();
    assert!(matches!(lex.interpret(&b"go\n".to_vec()), Reply::Silent));
}

#[test]
fn position_then_go_reports_the_mating_move() {
    let mut lex = Lexer::new();
    let r = lex.interpret(&b"position fen 6k1/5ppp/8/8/8/8/8/R6K w - - 0 1\n".to_vec());
    assert!(matches!(r, Reply::Silent));
    match lex.interpret(&b"go\n".to_vec()) {
        Reply::BestMove(m) => assert_eq!(m, b"a1a8".to_vec()),
        other => panic!("expected a best move, got {:?}", reply_name(&other)),
    }
}

fn reply_name(r: &Reply) -> &'static str {
    match r {
        Reply::Identify => "Identify",
        Reply::ReadyOk => "ReadyOk",
        Reply::Bye => "Bye",
        Reply::BestMove(_) => "BestMove",
        Reply::Silent => "Silent",
    }
}
