//! The engine: the long-lived aggregate owning the current position, the
//! three opening-book tables and the out-of-book latch, and the
//! iteratively deepened search driver with its cancellation protocol.

use vstd::prelude::*;
use std::collections::HashMap;
use crate::book::{
    book_entries,
    map_of_entries,
    probe_tables,
    push_bytes,
    split_bytes,
    table_view,
    SPACE,
};
use crate::position::{
    board_fingerprint,
    clone_move,
    move_uci_bytes,
    play_move,
    random_below,
    san_to_move,
    starting_position,
    turn_is_white,
    uci_to_move,
};
use crate::search::{build_root, Search};
use crate::tree::search_root;
use crate::uci::{bytes_eq, kw_moves, kw_position, kw_startpos, moves_kw, position_kw,
    startpos_kw};

verus! {

/// The engine owned by one protocol session.
pub struct Engine {
    pub board: shakmaty::Chess,
    pub best_move: Option<shakmaty::Move>,
    pub stop_receiver: std::sync::mpsc::Receiver<bool>,
    pub stop_search: bool,
    pub white_book: HashMap<u64, Vec<Vec<u8>>>,
    pub black_book: HashMap<u64, Vec<Vec<u8>>>,
    pub draw_book: HashMap<u64, Vec<Vec<u8>>>,
    pub out_of_book: bool,
}

/// The outcome of one iterative-deepening round: either the round ran to
/// completion and recorded a candidate, or it was cancelled part-way.
pub enum Round {
    Completed(Option<shakmaty::Move>),
    Cancelled,
}

pub open spec fn round_candidate(r: Round) -> Option<shakmaty::Move> {
    match r {
        Round::Completed(c) => c,
        Round::Cancelled => None,
    }
}

/// The move on record after a sequence of rounds: each completed round
/// replaces the record with its candidate; a cancelled round leaves the
/// record alone.
pub open spec fn best_after(rounds: Seq<Round>, init: Option<shakmaty::Move>) -> Option<
    shakmaty::Move,
>
    decreases rounds.len(),
{
    if rounds.len() == 0 {
        init
    } else {
        match rounds.last() {
            Round::Completed(c) => c,
            Round::Cancelled => best_after(rounds.drop_last(), init),
        }
    }
}

/// Iterative-deepening monotonicity: the candidate recorded by a completed
/// round is never overwritten by later rounds that were cancelled before
/// completion — whatever a cancelled deeper round saw is discarded.
pub proof fn lemma_deepening_monotonic(rounds: Seq<Round>, init: Option<shakmaty::Move>, k: int)
    requires
        0 <= k < rounds.len(),
        rounds[k] is Completed,
        forall|j: int| k < j < rounds.len() ==> rounds[j] is Cancelled,
    ensures
        best_after(rounds, init) == round_candidate(rounds[k]),
    decreases rounds.len(),
{
    if k == rounds.len() - 1 {
    } else {
        assert(rounds.last() is Cancelled);
        assert(rounds.drop_last()[k] == rounds[k]);
        lemma_deepening_monotonic(rounds.drop_last(), init, k);
    }
}

/// Whether a `position` command line names the starting position.
pub open spec fn names_startpos(line: Seq<u8>) -> bool {
    let toks = crate::book::split_on(line, SPACE);
    toks.len() >= 2 && toks[0] == position_kw() && toks[1] == startpos_kw()
}

/// Whether a command line carries a `moves` token.
pub open spec fn has_moves_token(line: Seq<u8>) -> bool {
    exists|i: int|
        0 <= i < crate::book::split_on(line, SPACE).len() && #[trigger] crate::book::split_on(
            line,
            SPACE,
        )[i] == moves_kw()
}

/// The fixed prefix of a best-move report: the bytes of `bestmove `.
pub open spec fn bestmove_prefix() -> Seq<u8> {
    seq![0x62u8, 0x65u8, 0x73u8, 0x74u8, 0x6du8, 0x6fu8, 0x76u8, 0x65u8, 0x20u8]
}

/// Format a best-move report line.
pub fn bestmove_line(m: &shakmaty::Move) -> (r: Vec<u8>)
    ensures
        r@.len() >= 9,
        r@.subrange(0, 9) == bestmove_prefix(),
{
    let mut v: Vec<u8> = Vec::new();
    v.push(0x62);
    v.push(0x65);
    v.push(0x73);
    v.push(0x74);
    v.push(0x6d);
    v.push(0x6f);
    v.push(0x76);
    v.push(0x65);
    v.push(0x20);
    proof {
        assert(v@ =~= bestmove_prefix());
    }
    let uci = move_uci_bytes(m);
    push_bytes(&mut v, &uci);
    proof {
        assert(v@.subrange(0, 9) =~= bestmove_prefix());
    }
    v
}

impl Engine {
    /// Parse one book file into its lookup table; a malformed file yields
    /// an empty table, so a broken book disables itself rather than the
    /// engine.
    pub fn prepare_book(book: &Vec<u8>) -> (r: HashMap<u64, Vec<Vec<u8>>>)
        ensures
            book_entries(book@) matches Some(e) ==> table_view(r) == map_of_entries(e),
            book_entries(book@) is None ==> table_view(r) == Map::<u64, Seq<Seq<u8>>>::empty(),
    {
        let parsed = crate::book::prepare_book(book);
        match parsed {
            Option::Some(m) => m,
            Option::None => {
                let m: HashMap<u64, Vec<Vec<u8>>> = HashMap::new();
                proof {
                    assert(table_view(m) =~= Map::<u64, Seq<Seq<u8>>>::empty());
                }
                m
            },
        }
    }

    /// A fresh engine: the starting position, the three books parsed from
    /// their serialized form, and the book latch open.
    pub fn new(
        stop_receiver: std::sync::mpsc::Receiver<bool>,
        white: &Vec<u8>,
        black: &Vec<u8>,
        draw: &Vec<u8>,
    ) -> (r: Engine)
        ensures
            !r.out_of_book,
            !r.stop_search,
            r.best_move is None,
            book_entries(white@) matches Some(e) ==> table_view(r.white_book) == map_of_entries(
                e,
            ),
            book_entries(black@) matches Some(e) ==> table_view(r.black_book) == map_of_entries(
                e,
            ),
            book_entries(draw@) matches Some(e) ==> table_view(r.draw_book) == map_of_entries(e),
    {
        Engine {
            board: starting_position(),
            best_move: None,
            stop_receiver,
            stop_search: false,
            white_book: Self::prepare_book(white),
            black_book: Self::prepare_book(black),
            draw_book: Self::prepare_book(draw),
            out_of_book: false,
        }
    }

    /// Start a new game: reset the position.  The books and the
    /// out-of-book latch are left as they are for the process lifetime.
    pub fn new_game(&mut self)
        ensures
            final(self).out_of_book == old(self).out_of_book,
            final(self).white_book == old(self).white_book,
            final(self).black_book == old(self).black_book,
            final(self).draw_book == old(self).draw_book,
            final(self).best_move == old(self).best_move,
    {
        self.board = starting_position();
    }

    /// The fingerprint of the current position.
    pub fn fingerprint(&self) -> u64 {
        board_fingerprint(&self.board)
    }

    /// Handle a `position` command line: `position startpos` resets the
    /// board, and a `moves` token replays the listed long-algebraic moves
    /// from the fourth token on.  Returns `false`, leaving the remaining
    /// moves unapplied, if a move fails to parse or is illegal — a
    /// malformed command is an error for this command only, never a
    /// crash.
    pub fn position(&mut self, line: &Vec<u8>) -> (ok: bool)
        ensures
            final(self).out_of_book == old(self).out_of_book,
            final(self).white_book == old(self).white_book,
            final(self).black_book == old(self).black_book,
            final(self).draw_book == old(self).draw_book,
            final(self).best_move == old(self).best_move,
            !names_startpos(line@) && !has_moves_token(line@) ==> final(self).board == old(
                self,
            ).board && ok,
    {
        let toks = split_bytes(line, SPACE);
        let ghost tokv = toks@.map_values(|p: Vec<u8>| p@);
        if toks.len() >= 2 {
            if bytes_eq(&toks[0], &kw_position()) && bytes_eq(&toks[1], &kw_startpos()) {
                proof {
                    assert(names_startpos(line@));
                }
                self.board = starting_position();
            }
        }
        let mut has_moves = false;
        let mut i: usize = 0;
        while i < toks.len()
            invariant
                0 <= i <= toks@.len(),
                tokv == toks@.map_values(|p: Vec<u8>| p@),
                tokv == crate::book::split_on(line@, SPACE),
                self.out_of_book == old(self).out_of_book,
                self.white_book == old(self).white_book,
                self.black_book == old(self).black_book,
                self.draw_book == old(self).draw_book,
                self.best_move == old(self).best_move,
                names_startpos(line@) || self.board == old(self).board,
                has_moves ==> has_moves_token(line@),
            decreases toks@.len() - i,
        {
            if bytes_eq(&toks[i], &kw_moves()) {
                proof {
                    assert(tokv[i as int] == moves_kw());
                }
                has_moves = true;
            }
            i += 1;
        }
        if has_moves {
            let mut j: usize = 3;
            while j < toks.len()
                invariant
                    has_moves_token(line@),
                    self.out_of_book == old(self).out_of_book,
                    self.white_book == old(self).white_book,
                    self.black_book == old(self).black_book,
                    self.draw_book == old(self).draw_book,
                    self.best_move == old(self).best_move,
                decreases toks@.len() - j,
            {
                let m = uci_to_move(&toks[j], &self.board);
                match m {
                    Option::None => {
                        return false;
                    },
                    Option::Some(m) => {
                        let next = play_move(&self.board, &m);
                        match next {
                            Option::None => {
                                return false;
                            },
                            Option::Some(b) => {
                                self.board = b;
                            },
                        }
                    },
                }
                j += 1;
            }
        }
        true
    }

    /// Probe the opening book for the current position.  Once latched
    /// out-of-book, every later probe reports `None` without consulting
    /// the tables; a miss — no table entry, an empty entry, or a recorded
    /// notation that does not denote a legal move here — latches the
    /// session out of book for good.
    pub fn get_book_move(&mut self) -> (r: Option<shakmaty::Move>)
        ensures
            final(self).board == old(self).board,
            final(self).white_book == old(self).white_book,
            final(self).black_book == old(self).black_book,
            final(self).draw_book == old(self).draw_book,
            final(self).best_move == old(self).best_move,
            final(self).stop_search == old(self).stop_search,
            old(self).out_of_book ==> r is None,
            r is Some ==> final(self).out_of_book == old(self).out_of_book,
            r is None ==> final(self).out_of_book,
    {
        if self.out_of_book {
            return None;
        }
        let white = turn_is_white(&self.board);
        let hash = board_fingerprint(&self.board);
        let chosen: Option<shakmaty::Move> = {
            let hit = probe_tables(&self.white_book, &self.black_book, &self.draw_book, white, hash);
            match hit {
                Option::None => None,
                Option::Some(list) => {
                    if list.len() == 0 {
                        None
                    } else {
                        let idx = random_below(list.len());
                        san_to_move(&list[idx], &self.board)
                    }
                },
            }
        };
        match chosen {
            Option::None => {
                self.out_of_book = true;
                None
            },
            Option::Some(m) => Some(m),
        }
    }

    /// Compute and report the move to play: the opening-book fast path
    /// when the session is still in book, otherwise iterative deepening —
    /// deepen one ply at a time, keep only the candidate of the last
    /// round that completed before the cancellation signal arrived.
    ///
    /// Returns the `bestmove ...` report line, or `None` when cancellation
    /// arrived before any round completed with a candidate — then no
    /// report is emitted at all, the explicit resolution of the protocol's
    /// silent corner case.  When a completed round finds every line lost
    /// it falls back to the first legal move rather than reporting
    /// nothing.
    ///
    /// Alongside the line comes the ghost log of the deepening rounds:
    /// empty exactly on the book fast path, otherwise every round but the
    /// last completed, and the line exists exactly when the last completed
    /// round left a candidate (`best_after`) — a cancelled deeper round
    /// never decides the report.
    pub fn calculate_best_move(&mut self) -> (r: (Option<Vec<u8>>, Ghost<Seq<Round>>))
        ensures
            r.0 matches Some(line) ==> line@.len() >= 9 && line@.subrange(0, 9)
                == bestmove_prefix(),
            final(self).board == old(self).board,
            final(self).white_book == old(self).white_book,
            final(self).black_book == old(self).black_book,
            final(self).draw_book == old(self).draw_book,
            old(self).out_of_book ==> final(self).out_of_book,
            r.0 is None ==> final(self).out_of_book,
            r.1@.len() == 0 ==> r.0 is Some && !old(self).out_of_book && final(self).out_of_book
                == old(self).out_of_book,
            r.1@.len() > 0 ==> (r.0 is Some <==> best_after(r.1@, None) is Some),
            forall|j: int| 0 <= j < r.1@.len() - 1 ==> r.1@[j] is Completed,
    {
        self.stop_search = false;
        let from_book = self.get_book_move();
        match from_book {
            Option::Some(m) => {
                return (Some(bestmove_line(&m)), Ghost(Seq::empty()));
            },
            Option::None => {},
        }
        let mut best_iter: Option<shakmaty::Move> = None;
        let ghost mut rounds: Seq<Round> = Seq::empty();
        let mut depth: u32 = 1;
        loop
            invariant_except_break
                forall|j: int| 0 <= j < rounds.len() ==> rounds[j] is Completed,
            invariant
                depth >= 1,
                best_iter == best_after(rounds, None),
                self.board == old(self).board,
                self.white_book == old(self).white_book,
                self.black_book == old(self).black_book,
                self.draw_book == old(self).draw_book,
                self.out_of_book,
            ensures
                rounds.len() >= 1,
                forall|j: int| 0 <= j < rounds.len() - 1 ==> rounds[j] is Completed,
            decreases u32::MAX - depth,
        {
            let built = build_root(Some(&self.stop_receiver), &self.board, depth);
            match built {
                Option::None => {
                    proof {
                        let prev = rounds;
                        rounds = rounds.push(Round::Cancelled);
                        assert(rounds.last() == Round::Cancelled);
                        assert(rounds.drop_last() =~= prev);
                    }
                    break;
                },
                Option::Some((moves, node)) => {
                    let res = search_root(&node, depth);
                    let candidate: Option<shakmaty::Move> = match res.1 {
                        Option::Some(i) => Some(clone_move(&moves[i])),
                        Option::None => {
                            if moves.len() > 0 {
                                match &best_iter {
                                    Option::Some(prev) => Some(clone_move(prev)),
                                    Option::None => Some(clone_move(&moves[0])),
                                }
                            } else {
                                match &best_iter {
                                    Option::Some(prev) => Some(clone_move(prev)),
                                    Option::None => None,
                                }
                            }
                        },
                    };
                    self.best_move = match &candidate {
                        Option::Some(c) => Some(clone_move(c)),
                        Option::None => None,
                    };
                    best_iter = candidate;
                    proof {
                        rounds = rounds.push(Round::Completed(best_iter));
                        assert(rounds.last() == Round::Completed(best_iter));
                    }
                },
            }
            if depth == u32::MAX {
                break;
            }
            depth += 1;
        }
        proof {
            assert(best_iter == best_after(rounds, None));
        }
        match best_iter {
            Option::Some(m) => (Some(bestmove_line(&m)), Ghost(rounds)),
            Option::None => (None, Ghost(rounds)),
        }
    }
}

} // verus!
