//! The UCI side of the engine: the protocol vocabulary, fixed replies,
//! and the line dispatcher of the plain (uncancellable) strategy.
//!
//! The dispatcher is pure decision logic: it consumes one input line and
//! returns what to answer; reading lines and printing answers stays in
//! the unverified shell around the library.

use vstd::prelude::*;
use crate::position::{move_uci_bytes, position_from_fen};
use crate::search::Search;

verus! {

/// The engine identification lines sent in reply to the `uci` command.
pub fn init() -> (r: Vec<&'static str>)
    ensures
        r@.len() == 3,
        r@[0]@ == "id name RustyFish"@,
        r@[1]@ == "id author Fernando Bandeira"@,
        r@[2]@ == "uciok"@,
{
    let mut v: Vec<&'static str> = Vec::new();
    v.push("id name RustyFish");
    v.push("id author Fernando Bandeira");
    v.push("uciok");
    v
}

/// The reply to the `isready` command.
pub fn isready() -> (r: &'static str)
    ensures
        r@ == "readyok"@,
{
    "readyok"
}

/// The bytes of `position`.
pub open spec fn position_kw() -> Seq<u8> {
    seq![0x70u8, 0x6fu8, 0x73u8, 0x69u8, 0x74u8, 0x69u8, 0x6fu8, 0x6eu8]
}

/// The bytes of `startpos`.
pub open spec fn startpos_kw() -> Seq<u8> {
    seq![0x73u8, 0x74u8, 0x61u8, 0x72u8, 0x74u8, 0x70u8, 0x6fu8, 0x73u8]
}

/// The bytes of `moves`.
pub open spec fn moves_kw() -> Seq<u8> {
    seq![0x6du8, 0x6fu8, 0x76u8, 0x65u8, 0x73u8]
}

/// The bytes of `fen`.
pub open spec fn fen_kw() -> Seq<u8> {
    seq![0x66u8, 0x65u8, 0x6eu8]
}

/// The bytes of `go`.
pub open spec fn go_kw() -> Seq<u8> {
    seq![0x67u8, 0x6fu8]
}

/// The bytes of `uci`.
pub open spec fn uci_kw() -> Seq<u8> {
    seq![0x75u8, 0x63u8, 0x69u8]
}

/// The bytes of `isready`.
pub open spec fn isready_kw() -> Seq<u8> {
    seq![0x69u8, 0x73u8, 0x72u8, 0x65u8, 0x61u8, 0x64u8, 0x79u8]
}

/// The bytes of `quit`.
pub open spec fn quit_kw() -> Seq<u8> {
    seq![0x71u8, 0x75u8, 0x69u8, 0x74u8]
}

/// The bytes of `ucinewgame`.
pub open spec fn newgame_kw() -> Seq<u8> {
    seq![0x75u8, 0x63u8, 0x69u8, 0x6eu8, 0x65u8, 0x77u8, 0x67u8, 0x61u8, 0x6du8, 0x65u8]
}

pub fn kw_position() -> (r: Vec<u8>)
    ensures
        r@ == position_kw(),
{
    let v: Vec<u8> = vec![0x70u8, 0x6fu8, 0x73u8, 0x69u8, 0x74u8, 0x69u8, 0x6fu8, 0x6eu8];
    proof {
        assert(v@ =~= position_kw());
    }
    v
}

pub fn kw_startpos() -> (r: Vec<u8>)
    ensures
        r@ == startpos_kw(),
{
    let v: Vec<u8> = vec![0x73u8, 0x74u8, 0x61u8, 0x72u8, 0x74u8, 0x70u8, 0x6fu8, 0x73u8];
    proof {
        assert(v@ =~= startpos_kw());
    }
    v
}

pub fn kw_moves() -> (r: Vec<u8>)
    ensures
        r@ == moves_kw(),
{
    let v: Vec<u8> = vec![0x6du8, 0x6fu8, 0x76u8, 0x65u8, 0x73u8];
    proof {
        assert(v@ =~= moves_kw());
    }
    v
}

pub fn kw_fen() -> (r: Vec<u8>)
    ensures
        r@ == fen_kw(),
{
    let v: Vec<u8> = vec![0x66u8, 0x65u8, 0x6eu8];
    proof {
        assert(v@ =~= fen_kw());
    }
    v
}

pub fn kw_go() -> (r: Vec<u8>)
    ensures
        r@ == go_kw(),
{
    let v: Vec<u8> = vec![0x67u8, 0x6fu8];
    proof {
        assert(v@ =~= go_kw());
    }
    v
}

pub fn kw_uci() -> (r: Vec<u8>)
    ensures
        r@ == uci_kw(),
{
    let v: Vec<u8> = vec![0x75u8, 0x63u8, 0x69u8];
    proof {
        assert(v@ =~= uci_kw());
    }
    v
}

pub fn kw_isready() -> (r: Vec<u8>)
    ensures
        r@ == isready_kw(),
{
    let v: Vec<u8> = vec![0x69u8, 0x73u8, 0x72u8, 0x65u8, 0x61u8, 0x64u8, 0x79u8];
    proof {
        assert(v@ =~= isready_kw());
    }
    v
}

pub fn kw_quit() -> (r: Vec<u8>)
    ensures
        r@ == quit_kw(),
{
    let v: Vec<u8> = vec![0x71u8, 0x75u8, 0x69u8, 0x74u8];
    proof {
        assert(v@ =~= quit_kw());
    }
    v
}

pub fn kw_newgame() -> (r: Vec<u8>)
    ensures
        r@ == newgame_kw(),
{
    let v: Vec<u8> = vec![
        0x75u8,
        0x63u8,
        0x69u8,
        0x6eu8,
        0x65u8,
        0x77u8,
        0x67u8,
        0x61u8,
        0x6du8,
        0x65u8,
    ];
    proof {
        assert(v@ =~= newgame_kw());
    }
    v
}

/// Byte-for-byte equality of two byte strings.
pub fn bytes_eq(a: &Vec<u8>, b: &Vec<u8>) -> (r: bool)
    ensures
        r <==> a@ == b@,
{
    if a.len() != b.len() {
        proof {
            assert(a@.len() != b@.len());
        }
        return false;
    }
    let mut i: usize = 0;
    while i < a.len()
        invariant
            0 <= i <= a@.len(),
            a@.len() == b@.len(),
            forall|j: int| 0 <= j < i ==> a@[j] == b@[j],
        decreases a@.len() - i,
    {
        if a[i] != b[i] {
            return false;
        }
        i += 1;
    }
    proof {
        assert(a@ =~= b@);
    }
    true
}

/// Whether `s` starts with `p`.
pub open spec fn starts_with_spec(s: Seq<u8>, p: Seq<u8>) -> bool {
    s.len() >= p.len() && s.subrange(0, p.len() as int) == p
}

pub fn starts_with(s: &Vec<u8>, p: &Vec<u8>) -> (r: bool)
    ensures
        r <==> starts_with_spec(s@, p@),
{
    if s.len() < p.len() {
        return false;
    }
    let mut i: usize = 0;
    while i < p.len()
        invariant
            0 <= i <= p@.len(),
            p@.len() <= s@.len(),
            forall|j: int| 0 <= j < i ==> s@[j] == p@[j],
        decreases p@.len() - i,
    {
        if s[i] != p[i] {
            proof {
                assert(s@.subrange(0, p@.len() as int)[i as int] != p@[i as int]);
            }
            return false;
        }
        i += 1;
    }
    proof {
        assert(s@.subrange(0, p@.len() as int) =~= p@);
    }
    true
}

pub open spec fn is_ws(b: u8) -> bool {
    b == 0x20 || b == 0x09 || b == 0x0a || b == 0x0d
}

pub open spec fn strip_front(s: Seq<u8>) -> Seq<u8>
    decreases s.len(),
{
    if s.len() > 0 && is_ws(s[0]) {
        strip_front(s.drop_first())
    } else {
        s
    }
}

pub open spec fn strip_back(s: Seq<u8>) -> Seq<u8>
    decreases s.len(),
{
    if s.len() > 0 && is_ws(s.last()) {
        strip_back(s.drop_last())
    } else {
        s
    }
}

/// ASCII whitespace trimmed from both ends.
pub open spec fn trim_spec(s: Seq<u8>) -> Seq<u8> {
    strip_back(strip_front(s))
}

proof fn lemma_strip_front_exact(s: Seq<u8>, a: int)
    requires
        0 <= a <= s.len(),
        forall|j: int| 0 <= j < a ==> is_ws(#[trigger] s[j]),
        a == s.len() || !is_ws(s[a]),
    ensures
        strip_front(s) == s.subrange(a, s.len() as int),
    decreases s.len(),
{
    if a == 0 {
        if s.len() == 0 || !is_ws(s[0]) {
            assert(s.subrange(0, s.len() as int) =~= s);
        }
    } else {
        assert(is_ws(s[0]));
        assert(forall|j: int| 0 <= j < s.len() - 1 ==> s.drop_first()[j] == s[j + 1]);
        lemma_strip_front_exact(s.drop_first(), a - 1);
        assert(s.drop_first().subrange(a - 1, s.len() - 1) =~= s.subrange(a, s.len() as int));
    }
}

proof fn lemma_strip_back_exact(s: Seq<u8>, b: int)
    requires
        0 <= b <= s.len(),
        forall|j: int| b <= j < s.len() ==> is_ws(#[trigger] s[j]),
        b == 0 || !is_ws(s[b - 1]),
    ensures
        strip_back(s) == s.subrange(0, b),
    decreases s.len(),
{
    if b == s.len() {
        if s.len() == 0 || !is_ws(s.last()) {
            assert(s.subrange(0, s.len() as int) =~= s);
        }
    } else {
        assert(is_ws(s.last()));
        assert(forall|j: int| 0 <= j < s.len() - 1 ==> s.drop_last()[j] == s[j]);
        lemma_strip_back_exact(s.drop_last(), b);
    }
}

/// Trim ASCII whitespace from both ends of a line.
pub fn trim_bytes(s: &Vec<u8>) -> (r: Vec<u8>)
    ensures
        r@ == trim_spec(s@),
{
    let n = s.len();
    let mut a: usize = 0;
    while a < n && (s[a] == 0x20 || s[a] == 0x09 || s[a] == 0x0a || s[a] == 0x0d)
        invariant
            0 <= a <= n,
            n == s@.len(),
            forall|j: int| 0 <= j < a ==> is_ws(#[trigger] s@[j]),
        decreases n - a,
    {
        a += 1;
    }
    let mut b: usize = n;
    while b > a && (s[b - 1] == 0x20 || s[b - 1] == 0x09 || s[b - 1] == 0x0a || s[b - 1] == 0x0d)
        invariant
            a <= b <= n,
            n == s@.len(),
            forall|j: int| 0 <= j < a ==> is_ws(#[trigger] s@[j]),
            forall|j: int| b <= j < n ==> is_ws(#[trigger] s@[j]),
        decreases b,
    {
        b -= 1;
    }
    let mut r: Vec<u8> = Vec::new();
    let mut k = a;
    while k < b
        invariant
            a <= k <= b <= n,
            n == s@.len(),
            r@ =~= s@.subrange(a as int, k as int),
        decreases b - k,
    {
        r.push(s[k]);
        proof {
            assert(s@.subrange(a as int, k + 1) =~= s@.subrange(a as int, k as int).push(
                s@[k as int],
            ));
        }
        k += 1;
    }
    proof {
        lemma_strip_front_exact(s@, a as int);
        let f = s@.subrange(a as int, n as int);
        assert(forall|j: int| 0 <= j < f.len() ==> f[j] == s@[a + j]);
        lemma_strip_back_exact(f, b - a);
        assert(f.subrange(0, b - a) =~= s@.subrange(a as int, b as int));
    }
    r
}

/// Whether a command line carries a `fen` token.
pub open spec fn has_fen_token(line: Seq<u8>) -> bool {
    exists|i: int|
        0 <= i < crate::book::split_on(line, crate::book::SPACE).len()
            && #[trigger] crate::book::split_on(line, crate::book::SPACE)[i] == fen_kw()
}

/// What the dispatcher answers for one input line.
pub enum Reply {
    /// The identification lines of `init`.
    Identify,
    /// `readyok`.
    ReadyOk,
    /// `bye`, and the session ends.
    Bye,
    /// A `bestmove ...` line.
    BestMove(Vec<u8>),
    /// Nothing to print.
    Silent,
}

/// The line dispatcher of the plain strategy: holds the strategy for the
/// current position, set by `position fen ...` lines.
pub struct Lexer {
    pub search_strategy: Option<Search>,
}

impl Default for Lexer {
    fn default() -> (r: Lexer)
        ensures
            r.search_strategy is None,
    {
        Lexer { search_strategy: None }
    }
}

impl Lexer {
    pub fn new() -> (r: Lexer)
        ensures
            r.search_strategy is None,
    {
        Lexer { search_strategy: None }
    }

    /// Dispatch one input line.
    ///
    /// `position fen <fen>` installs a strategy for that position (a line
    /// that does not parse is ignored); `go` searches and reports the
    /// move, or stays silent when there is no strategy or no move — a
    /// malformed command never brings the session down.
    pub fn interpret(&mut self, input: &Vec<u8>) -> (r: Reply)
        ensures
            starts_with_spec(input@, position_kw()) ==> r is Silent,
            starts_with_spec(input@, position_kw()) && !has_fen_token(input@)
                ==> final(self).search_strategy == old(self).search_strategy,
            !starts_with_spec(input@, position_kw()) && !starts_with_spec(input@, go_kw())
                ==> final(self).search_strategy == old(self).search_strategy,
            !starts_with_spec(input@, position_kw()) && starts_with_spec(input@, go_kw()) ==> (
            r is BestMove || r is Silent),
            ({
                let t = trim_spec(input@);
                !starts_with_spec(input@, position_kw()) && !starts_with_spec(input@, go_kw())
                    ==> ((t == uci_kw() ==> r is Identify) && (t == isready_kw() ==> r is ReadyOk)
                    && (t == quit_kw() ==> r is Bye) && (t != uci_kw() && t != isready_kw() && t
                    != quit_kw() ==> r is Silent))
            }),
    {
        if starts_with(input, &kw_position()) {
            self.position(input);
            return Reply::Silent;
        }
        if starts_with(input, &kw_go()) {
            return self.calculate_best_move();
        }
        let t = trim_bytes(input);
        if bytes_eq(&t, &kw_uci()) {
            Reply::Identify
        } else if bytes_eq(&t, &kw_isready()) {
            Reply::ReadyOk
        } else if bytes_eq(&t, &kw_quit()) {
            Reply::Bye
        } else if bytes_eq(&t, &kw_newgame()) {
            // A new game resets nothing here: a later `position fen` line
            // installs the position to search.
            Reply::Silent
        } else {
            // Unknown commands: nothing to answer.
            Reply::Silent
        }
    }

    /// Handle `position fen <fen>`: install a strategy for the described
    /// position.  Lines without a `fen` token leave the strategy alone;
    /// a FEN that does not parse is ignored.
    fn position(&mut self, input: &Vec<u8>)
        ensures
            !has_fen_token(input@) ==> final(self).search_strategy == old(self).search_strategy,
    {
        let toks = crate::book::split_bytes(input, crate::book::SPACE);
        let ghost tokv = toks@.map_values(|p: Vec<u8>| p@);
        let mut fen_at: usize = 0;
        let mut found = false;
        let mut i: usize = 0;
        while i < toks.len()
            invariant
                0 <= i <= toks@.len(),
                tokv == toks@.map_values(|p: Vec<u8>| p@),
                tokv == crate::book::split_on(input@, crate::book::SPACE),
                found ==> fen_at < i,
                found ==> has_fen_token(input@),
                self.search_strategy == old(self).search_strategy,
            decreases toks@.len() - i,
        {
            if !found {
                if bytes_eq(&toks[i], &kw_fen()) {
                    proof {
                        assert(tokv[i as int] == fen_kw());
                    }
                    fen_at = i;
                    found = true;
                }
            }
            i += 1;
        }
        if !found {
            return ;
        }
        let mut fen_text: Vec<u8> = Vec::new();
        let mut j = fen_at + 1;
        while j < toks.len()
            invariant
                fen_at + 1 <= j <= toks@.len() || j == fen_at + 1,
                has_fen_token(input@),
                self.search_strategy == old(self).search_strategy,
            decreases toks@.len() - j,
        {
            if j > fen_at + 1 {
                fen_text.push(crate::book::SPACE);
            }
            crate::book::push_bytes(&mut fen_text, &toks[j]);
            j += 1;
        }
        let fen_text = trim_bytes(&fen_text);
        let parsed = position_from_fen(&fen_text);
        match parsed {
            Option::Some(board) => {
                self.search_strategy = Some(Search::new(board));
            },
            Option::None => {},
        }
    }

    /// Handle `go`: search with the installed strategy and report.
    fn calculate_best_move(&mut self) -> (r: Reply)
        ensures
            r is BestMove || r is Silent,
    {
        match &mut self.search_strategy {
            Option::None => Reply::Silent,
            Option::Some(s) => {
                let best = s.search();
                match best {
                    Option::Some(m) => Reply::BestMove(move_uci_bytes(&m)),
                    Option::None => Reply::Silent,
                }
            },
        }
    }
}

} // verus!
