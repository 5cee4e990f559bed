//! Building opening-book tables from recorded games.
//!
//! The offline pass works in two stages: `parse_pgns` extracts from PGN
//! text the move sequence of each finished game, bucketed by outcome, and
//! `zobrist_table` replays each sequence from the starting position,
//! recording for every pre-move fingerprint the notations played there.
//! The produced table is sorted by fingerprint, each entry's notations
//! sorted and duplicate-free, and every recorded notation is free of the
//! format's separators — so a built table always serializes and reparses
//! to itself (see `book`).

use vstd::prelude::*;
use crate::book::{
    move_token_ok,
    split_bytes,
    BookLine,
    NEWLINE,
    SPACE,
    book_view,
    line_view,
    sep_free,
    split_on,
    lemma_split_parts_free,
};
use crate::position::{board_fingerprint, play_move, san_to_move, starting_position};
use crate::uci::{bytes_eq, starts_with, trim_bytes};

verus! {

/// Lexicographic byte order.
pub open spec fn lex_le(a: Seq<u8>, b: Seq<u8>) -> bool
    decreases a.len(),
{
    if a.len() == 0 {
        true
    } else if b.len() == 0 {
        false
    } else if a.first() < b.first() {
        true
    } else if a.first() > b.first() {
        false
    } else {
        lex_le(a.drop_first(), b.drop_first())
    }
}

pub open spec fn lex_lt(a: Seq<u8>, b: Seq<u8>) -> bool {
    lex_le(a, b) && a != b
}

proof fn lemma_lex_total(a: Seq<u8>, b: Seq<u8>)
    ensures
        lex_le(a, b) || lex_le(b, a),
    decreases a.len(),
{
    if a.len() > 0 && b.len() > 0 && a.first() == b.first() {
        lemma_lex_total(a.drop_first(), b.drop_first());
    }
}

fn lex_leq_from(a: &Vec<u8>, b: &Vec<u8>, i: usize) -> (r: bool)
    requires
        i <= a@.len(),
        i <= b@.len(),
    ensures
        r <==> lex_le(a@.skip(i as int), b@.skip(i as int)),
    decreases a@.len() - i,
{
    if i == a.len() {
        proof {
            assert(a@.skip(i as int) =~= Seq::<u8>::empty());
        }
        true
    } else if i == b.len() {
        proof {
            assert(b@.skip(i as int) =~= Seq::<u8>::empty());
            assert(a@.skip(i as int).len() > 0);
        }
        false
    } else {
        proof {
            assert(a@.skip(i as int).first() == a@[i as int]);
            assert(b@.skip(i as int).first() == b@[i as int]);
            assert(a@.skip(i as int).drop_first() =~= a@.skip(i + 1));
            assert(b@.skip(i as int).drop_first() =~= b@.skip(i + 1));
        }
        if a[i] < b[i] {
            true
        } else if a[i] > b[i] {
            false
        } else {
            lex_leq_from(a, b, i + 1)
        }
    }
}

/// Lexicographic comparison of byte strings.
pub fn lex_leq(a: &Vec<u8>, b: &Vec<u8>) -> (r: bool)
    ensures
        r <==> lex_le(a@, b@),
{
    let r = lex_leq_from(a, b, 0);
    proof {
        assert(a@.skip(0) =~= a@);
        assert(b@.skip(0) =~= b@);
    }
    r
}

/// Whether a notation may enter a book table: no space, no newline.
pub fn token_ok(t: &Vec<u8>) -> (r: bool)
    ensures
        r <==> move_token_ok(t@),
{
    let mut i: usize = 0;
    while i < t.len()
        invariant
            0 <= i <= t@.len(),
            forall|j: int| 0 <= j < i ==> t@[j] != SPACE && t@[j] != NEWLINE,
        decreases t@.len() - i,
    {
        if t[i] == SPACE || t[i] == NEWLINE {
            return false;
        }
        i += 1;
    }
    true
}

/// Strictly increasing fingerprints.
pub open spec fn hash_sorted(entries: Seq<(u64, Seq<Seq<u8>>)>) -> bool {
    forall|i: int| 0 <= i < entries.len() - 1 ==> (#[trigger] entries[i]).0 < entries[i + 1].0
}

/// Notations strictly sorted (hence duplicate-free) within one entry.
pub open spec fn entry_moves_sorted(ms: Seq<Seq<u8>>) -> bool {
    forall|i: int| 0 <= i < ms.len() - 1 ==> lex_lt(#[trigger] ms[i], ms[i + 1])
}

pub open spec fn moves_all_sorted(entries: Seq<(u64, Seq<Seq<u8>>)>) -> bool {
    forall|i: int| 0 <= i < entries.len() ==> entry_moves_sorted((#[trigger] entries[i]).1)
}

pub open spec fn mseq(ms: Seq<Vec<u8>>) -> Seq<Seq<u8>> {
    ms.map_values(|m: Vec<u8>| m@)
}

/// Whether the notation `m` is recorded anywhere in a table.
pub open spec fn recorded(entries: Seq<(u64, Seq<Seq<u8>>)>, m: Seq<u8>) -> bool {
    exists|i: int, j: int|
        0 <= i < entries.len() && 0 <= j < entries[i].1.len() && #[trigger] entries[i].1[j] == m
}

/// The first space-separated token of a game line.
pub open spec fn first_token(game: Seq<u8>) -> Seq<u8> {
    split_on(game, SPACE)[0]
}

/// Whether `m` is one of the space-separated tokens of some input game.
pub open spec fn is_game_token(games: Seq<Vec<u8>>, m: Seq<u8>) -> bool {
    exists|g: int, t: int|
        0 <= g < games.len() && 0 <= t < split_on(games[g]@, SPACE).len() && #[trigger] split_on(
            games[g]@,
            SPACE,
        )[t] == m
}

/// Insert a notation into a sorted, duplicate-free list, keeping it so.
fn insert_move(ms: &mut Vec<Vec<u8>>, mv: &Vec<u8>)
    requires
        entry_moves_sorted(mseq(old(ms)@)),
        crate::book::moves_ok(mseq(old(ms)@)),
        move_token_ok(mv@),
    ensures
        entry_moves_sorted(mseq(final(ms)@)),
        crate::book::moves_ok(mseq(final(ms)@)),
        final(ms)@.len() >= 1,
        mseq(final(ms)@).contains(mv@),
        forall|x: Seq<u8>|
            mseq(final(ms)@).contains(x) ==> mseq(old(ms)@).contains(x) || x == mv@,
        forall|x: Seq<u8>| mseq(old(ms)@).contains(x) ==> mseq(final(ms)@).contains(x),
{
    let mut k: usize = 0;
    while k < ms.len() && !lex_leq(mv, &ms[k])
        invariant
            0 <= k <= ms@.len(),
            ms@ == old(ms)@,
            forall|j: int| 0 <= j < k ==> lex_lt(mseq(ms@)[j], mv@),
        decreases ms@.len() - k,
    {
        proof {
            lemma_lex_total(mv@, ms@[k as int]@);
            if ms@[k as int]@ == mv@ {
                assert(lex_le(mv@, ms@[k as int]@));
            }
        }
        k += 1;
    }
    if k < ms.len() {
        if bytes_eq(&ms[k], mv) {
            proof {
                assert(mseq(ms@)[k as int] == mv@);
                assert(mseq(ms@).contains(mv@));
            }
            return ;
        }
    }
    let mut copy: Vec<u8> = Vec::new();
    crate::book::push_bytes(&mut copy, mv);
    let ghost oldv = mseq(ms@);
    ms.insert(k, copy);
    proof {
        oldv.insert_ensures(k as int, mv@);
        assert(mseq(ms@) =~= oldv.insert(k as int, mv@));
        let newv = mseq(ms@);
        assert forall|i: int| 0 <= i < newv.len() - 1 implies lex_lt(
            #[trigger] newv[i],
            newv[i + 1],
        ) by {
            if i + 1 < k {
                assert(newv[i] == oldv[i] && newv[i + 1] == oldv[i + 1]);
            } else if i + 1 == k {
                assert(newv[i] == oldv[i] && newv[i + 1] == mv@);
            } else if i == k {
                assert(newv[i] == mv@ && newv[i + 1] == oldv[i]);
                assert(lex_le(mv@, oldv[i]) && oldv[i] != mv@);
            } else {
                assert(newv[i] == oldv[i - 1] && newv[i + 1] == oldv[i]);
            }
        }
        assert forall|i: int| 0 <= i < newv.len() implies move_token_ok(#[trigger] newv[i]) by {
            if i < k {
                assert(newv[i] == oldv[i]);
            } else if i == k {
            } else {
                assert(newv[i] == oldv[i - 1]);
            }
        }
        assert(newv[k as int] == mv@);
        assert(newv.contains(mv@));
        assert forall|x: Seq<u8>| newv.contains(x) implies oldv.contains(x) || x == mv@ by {
            let i = choose|i: int| 0 <= i < newv.len() && newv[i] == x;
            if i < k {
                assert(oldv[i] == x);
            } else if i > k {
                assert(oldv[i - 1] == x);
            }
        }
        assert forall|x: Seq<u8>| oldv.contains(x) implies newv.contains(x) by {
            let i = choose|i: int| 0 <= i < oldv.len() && oldv[i] == x;
            if i < k {
                assert(newv[i] == x);
            } else {
                assert(newv[i + 1] == x);
            }
        }
    }
}

/// Insert one (fingerprint, notation) observation into a sorted table.
fn insert_entry(table: &mut Vec<BookLine>, hash: u64, mv: &Vec<u8>)
    requires
        hash_sorted(book_view(old(table)@)),
        moves_all_sorted(book_view(old(table)@)),
        crate::book::wf_entries(book_view(old(table)@)),
        move_token_ok(mv@),
    ensures
        hash_sorted(book_view(final(table)@)),
        moves_all_sorted(book_view(final(table)@)),
        crate::book::wf_entries(book_view(final(table)@)),
        recorded(book_view(final(table)@), mv@),
        forall|m: Seq<u8>|
            recorded(book_view(final(table)@), m) ==> recorded(book_view(old(table)@), m) || m
                == mv@,
        forall|m: Seq<u8>|
            recorded(book_view(old(table)@), m) ==> recorded(book_view(final(table)@), m),
{
    let mut k: usize = 0;
    while k < table.len() && table[k].hash < hash
        invariant
            0 <= k <= table@.len(),
            table@ == old(table)@,
            forall|j: int| 0 <= j < k ==> book_view(table@)[j].0 < hash,
        decreases table@.len() - k,
    {
        k += 1;
    }
    if k < table.len() {
        if table[k].hash == hash {
            // Extend the existing entry in place.
            let line = table.remove(k);
            let mut moves = line.moves;
            proof {
                assert(book_view(old(table)@)[k as int].1 == mseq(moves@));
            }
            insert_move(&mut moves, mv);
            let rebuilt = BookLine { hash, moves };
            table.insert(k, rebuilt);
            proof {
                let oldv = book_view(old(table)@);
                let newv = book_view(table@);
                assert(table@ =~= old(table)@.remove(k as int).insert(k as int, rebuilt));
                assert forall|i: int| 0 <= i < newv.len() implies (#[trigger] newv[i]).0
                    == oldv[i].0 by {
                    assert(table@[i] == if i == k {
                        rebuilt
                    } else {
                        old(table)@[i]
                    });
                }
                assert(newv.len() == oldv.len());
                assert forall|i: int| 0 <= i < newv.len() implies entry_moves_sorted(
                    (#[trigger] newv[i]).1,
                ) && crate::book::moves_ok(newv[i].1) by {
                    if i != k {
                        assert(newv[i] == oldv[i]);
                    }
                }
                assert(newv[k as int].1 == mseq(moves@));
                assert(newv[k as int].1.contains(mv@));
                let jw = choose|j: int|
                    0 <= j < newv[k as int].1.len() && newv[k as int].1[j] == mv@;
                assert(recorded(newv, mv@));
                assert forall|m: Seq<u8>| recorded(newv, m) implies recorded(oldv, m) || m
                    == mv@ by {
                    let (i, j) = choose|i: int, j: int|
                        0 <= i < newv.len() && 0 <= j < newv[i].1.len() && newv[i].1[j] == m;
                    if i != k {
                        assert(newv[i] == oldv[i]);
                        assert(recorded(oldv, m));
                    } else {
                        assert(newv[k as int].1.contains(m));
                        if m != mv@ {
                            assert(oldv[k as int].1.contains(m));
                            let j2 = choose|j2: int|
                                0 <= j2 < oldv[k as int].1.len() && oldv[k as int].1[j2] == m;
                            assert(recorded(oldv, m));
                        }
                    }
                }
                assert forall|m: Seq<u8>| recorded(oldv, m) implies recorded(newv, m) by {
                    let (i, j) = choose|i: int, j: int|
                        0 <= i < oldv.len() && 0 <= j < oldv[i].1.len() && oldv[i].1[j] == m;
                    if i != k {
                        assert(newv[i] == oldv[i]);
                        assert(recorded(newv, m));
                    } else {
                        assert(oldv[k as int].1.contains(m));
                        assert(newv[k as int].1.contains(m));
                        let j3 = choose|j3: int|
                            0 <= j3 < newv[k as int].1.len() && newv[k as int].1[j3] == m;
                        assert(recorded(newv, m));
                    }
                }
            }
            return ;
        }
    }
    let mut moves: Vec<Vec<u8>> = Vec::new();
    insert_move(&mut moves, mv);
    let fresh = BookLine { hash, moves };
    let ghost oldv = book_view(table@);
    table.insert(k, fresh);
    proof {
        oldv.insert_ensures(k as int, line_view(fresh));
        assert(book_view(table@) =~= oldv.insert(k as int, line_view(fresh)));
        let newv = book_view(table@);
        assert forall|i: int| 0 <= i < newv.len() - 1 implies (#[trigger] newv[i]).0 < newv[i
            + 1].0 by {
            if i + 1 < k {
                assert(newv[i] == oldv[i] && newv[i + 1] == oldv[i + 1]);
            } else if i + 1 == k {
                assert(newv[i] == oldv[i] && newv[i + 1].0 == hash);
            } else if i == k {
                assert(newv[i].0 == hash && newv[i + 1] == oldv[i]);
                assert(!(oldv[i].0 < hash) && oldv[i].0 != hash);
            } else {
                assert(newv[i] == oldv[i - 1] && newv[i + 1] == oldv[i]);
            }
        }
        assert forall|i: int| 0 <= i < newv.len() implies entry_moves_sorted(
            (#[trigger] newv[i]).1,
        ) && crate::book::moves_ok(newv[i].1) by {
            if i < k {
                assert(newv[i] == oldv[i]);
            } else if i == k {
            } else {
                assert(newv[i] == oldv[i - 1]);
            }
        }
        assert(newv[k as int].1 == mseq(moves@));
        assert(newv[k as int].1.contains(mv@));
        let jw = choose|j: int| 0 <= j < newv[k as int].1.len() && newv[k as int].1[j] == mv@;
        assert(recorded(newv, mv@));
        assert forall|m: Seq<u8>| recorded(newv, m) implies recorded(oldv, m) || m == mv@ by {
            let (i, j) = choose|i: int, j: int|
                0 <= i < newv.len() && 0 <= j < newv[i].1.len() && newv[i].1[j] == m;
            if i < k {
                assert(newv[i] == oldv[i]);
                assert(recorded(oldv, m));
            } else if i == k {
                assert(newv[k as int].1.contains(m));
            } else {
                assert(newv[i] == oldv[i - 1]);
                assert(recorded(oldv, m));
            }
        }
        assert forall|m: Seq<u8>| recorded(oldv, m) implies recorded(newv, m) by {
            let (i, j) = choose|i: int, j: int|
                0 <= i < oldv.len() && 0 <= j < oldv[i].1.len() && oldv[i].1[j] == m;
            if i < k {
                assert(newv[i] == oldv[i]);
                assert(recorded(newv, m));
            } else {
                assert(newv[i + 1] == oldv[i]);
                assert(recorded(newv, m));
            }
        }
    }
}

/// Build the fingerprint table of one outcome bucket: replay the first 10
/// plies of every game, recording at each pre-move position the notation
/// played there.  A notation that cannot be parsed or played ends that
/// game's replay (a malformed record spoils only its own tail); one that
/// contains a separator is not recorded at all, since the book format
/// could not carry it.  The result is sorted by fingerprint with sorted,
/// duplicate-free notation sets — exactly the class of tables that
/// round-trips through the book format — and holds only notations taken
/// from the games; in particular every game's opening notation, which is
/// recorded before anything is parsed, is in the table.  Which
/// fingerprint carries which notation depends on the hash of an opaque
/// position and cannot be stated here.
pub fn zobrist_table(games: &Vec<Vec<u8>>) -> (r: Vec<BookLine>)
    ensures
        hash_sorted(book_view(r@)),
        moves_all_sorted(book_view(r@)),
        crate::book::wf_entries(book_view(r@)),
        forall|m: Seq<u8>| recorded(book_view(r@), m) ==> is_game_token(games@, m),
        forall|g: int|
            0 <= g < games@.len() && move_token_ok(#[trigger] first_token(games@[g]@))
                ==> recorded(book_view(r@), first_token(games@[g]@)),
{
    let mut table: Vec<BookLine> = Vec::new();
    let mut g: usize = 0;
    while g < games.len()
        invariant
            hash_sorted(book_view(table@)),
            moves_all_sorted(book_view(table@)),
            crate::book::wf_entries(book_view(table@)),
            0 <= g <= games@.len(),
            forall|m: Seq<u8>| recorded(book_view(table@), m) ==> is_game_token(games@, m),
            forall|g2: int|
                0 <= g2 < g && move_token_ok(#[trigger] first_token(games@[g2]@)) ==> recorded(
                    book_view(table@),
                    first_token(games@[g2]@),
                ),
        decreases games@.len() - g,
    {
        let toks = split_bytes(&games[g], SPACE);
        let ghost tokv = toks@.map_values(|p: Vec<u8>| p@);
        proof {
            assert(split_on(games@[g as int]@, SPACE).len() >= 1);
            assert(toks@.len() >= 1);
        }
        let mut board = starting_position();
        let mut plies: u32 = 0;
        let mut t: usize = 0;
        let ghost mut first_done = false;
        while t < toks.len() && plies < 10
            invariant
                hash_sorted(book_view(table@)),
                moves_all_sorted(book_view(table@)),
                crate::book::wf_entries(book_view(table@)),
                0 <= t <= toks@.len(),
                tokv == toks@.map_values(|p: Vec<u8>| p@),
                tokv == split_on(games@[g as int]@, SPACE),
                g < games@.len(),
                forall|m: Seq<u8>| recorded(book_view(table@), m) ==> is_game_token(games@, m),
                forall|g2: int|
                    0 <= g2 < g && move_token_ok(#[trigger] first_token(games@[g2]@)) ==> recorded(
                        book_view(table@),
                        first_token(games@[g2]@),
                    ),
                toks@.len() >= 1,
                plies <= t,
                first_done || (t == 0 && plies == 0),
                first_done ==> (move_token_ok(first_token(games@[g as int]@)) ==> recorded(
                    book_view(table@),
                    first_token(games@[g as int]@),
                )),
            ensures
                first_done,
            decreases toks@.len() - t,
        {
            let tok = &toks[t];
            let hash = board_fingerprint(&board);
            if token_ok(tok) {
                proof {
                    assert(tokv[t as int] == tok@);
                    assert(is_game_token(games@, tok@));
                }
                insert_entry(&mut table, hash, tok);
            }
            proof {
                if t == 0 {
                    assert(first_token(games@[g as int]@) == tokv[0]);
                }
                first_done = true;
            }
            let parsed = san_to_move(tok, &board);
            match parsed {
                Option::None => {
                    break ;
                },
                Option::Some(m) => {
                    let next = play_move(&board, &m);
                    match next {
                        Option::None => {
                            break ;
                        },
                        Option::Some(b) => {
                            board = b;
                        },
                    }
                },
            }
            plies += 1;
            t += 1;
        }
        proof {
            assert(first_done);
        }
        g += 1;
    }
    table
}

/// Build one bucket's table and serialize it.  The serialized bytes
/// denote exactly the built table: a book produced here always reparses
/// to the table it came from.
pub fn build_book(games: &Vec<Vec<u8>>) -> (r: (Vec<BookLine>, Vec<u8>))
    ensures
        hash_sorted(book_view(r.0@)),
        moves_all_sorted(book_view(r.0@)),
        forall|m: Seq<u8>| recorded(book_view(r.0@), m) ==> is_game_token(games@, m),
        forall|g: int|
            0 <= g < games@.len() && move_token_ok(#[trigger] first_token(games@[g]@))
                ==> recorded(book_view(r.0@), first_token(games@[g]@)),
        r.1@ == crate::book::book_bytes(book_view(r.0@)),
        crate::book::book_entries(r.1@) == Some(book_view(r.0@)),
{
    let table = zobrist_table(games);
    let bytes = crate::book::serialize_book(&table);
    proof {
        crate::book::lemma_book_round_trip(book_view(table@));
    }
    (table, bytes)
}

proof fn lemma_strip_front_free(s: Seq<u8>, bad: u8)
    requires
        sep_free(s, bad),
    ensures
        sep_free(crate::uci::strip_front(s), bad),
    decreases s.len(),
{
    if s.len() > 0 && crate::uci::is_ws(s[0]) {
        assert(forall|j: int| 0 <= j < s.len() - 1 ==> s.drop_first()[j] == s[j + 1]);
        lemma_strip_front_free(s.drop_first(), bad);
    }
}

proof fn lemma_strip_back_free(s: Seq<u8>, bad: u8)
    requires
        sep_free(s, bad),
    ensures
        sep_free(crate::uci::strip_back(s), bad),
    decreases s.len(),
{
    if s.len() > 0 && crate::uci::is_ws(s.last()) {
        assert(forall|j: int| 0 <= j < s.len() - 1 ==> s.drop_last()[j] == s[j]);
        lemma_strip_back_free(s.drop_last(), bad);
    }
}

/// Each non-overlapping pair of spaces collapsed into one, left to right.
pub open spec fn collapse_spec(s: Seq<u8>) -> Seq<u8>
    decreases s.len(),
{
    if s.len() == 0 {
        Seq::empty()
    } else if s[0] == SPACE && s.len() >= 2 && s[1] == SPACE {
        seq![SPACE] + collapse_spec(s.skip(2))
    } else {
        seq![s[0]] + collapse_spec(s.skip(1))
    }
}

/// Collapse each non-overlapping pair of spaces into one, left to right.
fn collapse_double_spaces(s: &Vec<u8>) -> (r: Vec<u8>)
    ensures
        r@ == collapse_spec(s@),
        sep_free(s@, NEWLINE) ==> sep_free(r@, NEWLINE),
{
    let mut r: Vec<u8> = Vec::new();
    let mut i: usize = 0;
    proof {
        assert(s@.skip(0) =~= s@);
        assert(collapse_spec(s@) =~= r@ + collapse_spec(s@.skip(0)));
    }
    while i < s.len()
        invariant
            0 <= i <= s@.len(),
            collapse_spec(s@) == r@ + collapse_spec(s@.skip(i as int)),
            sep_free(s@, NEWLINE) ==> sep_free(r@, NEWLINE),
        decreases s@.len() - i,
    {
        proof {
            let tl = s@.skip(i as int);
            assert(tl.len() == s@.len() - i);
            assert(tl[0] == s@[i as int]);
            if i + 1 < s@.len() {
                assert(tl[1] == s@[i + 1]);
            }
            assert(tl.skip(1) =~= s@.skip(i + 1));
            if tl.len() >= 2 {
                assert(tl.skip(2) =~= s@.skip(i + 2));
            }
        }
        if s[i] == SPACE && i + 1 < s.len() && s[i + 1] == SPACE {
            r.push(SPACE);
            i += 2;
        } else {
            r.push(s[i]);
            i += 1;
        }
    }
    proof {
        assert(s@.skip(s@.len() as int) =~= Seq::<u8>::empty());
        assert(collapse_spec(Seq::<u8>::empty()) == Seq::<u8>::empty());
    }
    r
}

/// The bytes of `[`.
pub open spec fn open_bracket() -> Seq<u8> {
    seq![0x5bu8]
}

/// The bytes of `[Result`.
pub open spec fn result_tag() -> Seq<u8> {
    seq![0x5bu8, 0x52u8, 0x65u8, 0x73u8, 0x75u8, 0x6cu8, 0x74u8]
}

/// The bytes of the tag line `[Result "1-0"]`.
pub open spec fn white_result_line() -> Seq<u8> {
    seq![0x5bu8, 0x52u8, 0x65u8, 0x73u8, 0x75u8, 0x6cu8, 0x74u8, 0x20u8, 0x22u8, 0x31u8, 0x2du8,
        0x30u8, 0x22u8, 0x5du8]
}

/// The bytes of the tag line `[Result "0-1"]`.
pub open spec fn black_result_line() -> Seq<u8> {
    seq![0x5bu8, 0x52u8, 0x65u8, 0x73u8, 0x75u8, 0x6cu8, 0x74u8, 0x20u8, 0x22u8, 0x30u8, 0x2du8,
        0x31u8, 0x22u8, 0x5du8]
}

/// The bytes of `1.`, the start of move text.
pub open spec fn first_move_marker() -> Seq<u8> {
    seq![0x31u8, 0x2eu8]
}

/// The bytes of the game-end markers `1-0`, `0-1` and `1/2-1/2`.
pub open spec fn white_marker() -> Seq<u8> {
    seq![0x31u8, 0x2du8, 0x30u8]
}

pub open spec fn black_marker() -> Seq<u8> {
    seq![0x30u8, 0x2du8, 0x31u8]
}

pub open spec fn draw_marker() -> Seq<u8> {
    seq![0x31u8, 0x2fu8, 0x32u8, 0x2du8, 0x31u8, 0x2fu8, 0x32u8]
}

pub open spec fn is_result_marker(tok: Seq<u8>) -> bool {
    tok == white_marker() || tok == black_marker() || tok == draw_marker()
}

/// The state of the PGN pass: the outcome of the game being read
/// (`Some(true)`: white won, `Some(false)`: black won, `None`: drawn or
/// unknown), whether move text is being read, the move line accumulated
/// so far, and the three outcome buckets.
pub ghost struct PgnState {
    pub winner: Option<bool>,
    pub parsing: bool,
    pub cur: Seq<u8>,
    pub white: Seq<Seq<u8>>,
    pub black: Seq<Seq<u8>>,
    pub draws: Seq<Seq<u8>>,
}

pub open spec fn mk_state(
    winner: Option<bool>,
    parsing: bool,
    cur: Seq<u8>,
    white: Seq<Seq<u8>>,
    black: Seq<Seq<u8>>,
    draws: Seq<Seq<u8>>,
) -> PgnState {
    PgnState { winner, parsing, cur, white, black, draws }
}

pub open spec fn pgn_empty() -> PgnState {
    mk_state(None, false, Seq::empty(), Seq::empty(), Seq::empty(), Seq::empty())
}

/// A finished game line: the accumulated move text with space pairs
/// collapsed and the ends trimmed.
pub open spec fn finished_game(cur: Seq<u8>) -> Seq<u8> {
    crate::uci::trim_spec(collapse_spec(cur))
}

/// A token with its leading move number stripped: the piece between the
/// first and second dot, when the token has a dot at all; trimmed either
/// way.
pub open spec fn stripped_token(tok: Seq<u8>) -> Seq<u8> {
    let pieces = split_on(tok, 0x2e);
    if pieces.len() >= 2 {
        crate::uci::trim_spec(pieces[1])
    } else {
        crate::uci::trim_spec(tok)
    }
}

/// Append a finished game to the bucket the current winner selects.
pub open spec fn push_game(st: PgnState, game: Seq<u8>) -> PgnState {
    match st.winner {
        Option::Some(true) => mk_state(
            st.winner,
            st.parsing,
            st.cur,
            st.white.push(game),
            st.black,
            st.draws,
        ),
        Option::Some(false) => mk_state(
            st.winner,
            st.parsing,
            st.cur,
            st.white,
            st.black.push(game),
            st.draws,
        ),
        Option::None => mk_state(
            st.winner,
            st.parsing,
            st.cur,
            st.white,
            st.black,
            st.draws.push(game),
        ),
    }
}

/// One move-text token: a result marker finishes the game (and the rest
/// of the line is skipped); any other token is number-stripped and
/// appended to the accumulated move line with a trailing space.
pub open spec fn pgn_token_step(st: PgnState, raw: Seq<u8>) -> (PgnState, bool) {
    let tok = crate::uci::trim_spec(raw);
    if is_result_marker(tok) {
        let st2 = push_game(st, finished_game(st.cur));
        (mk_state(st2.winner, false, Seq::empty(), st2.white, st2.black, st2.draws), true)
    } else {
        (
            mk_state(
                st.winner,
                st.parsing,
                st.cur + stripped_token(tok) + seq![SPACE],
                st.white,
                st.black,
                st.draws,
            ),
            false,
        )
    }
}

pub open spec fn pgn_tokens(st: PgnState, raws: Seq<Seq<u8>>) -> PgnState
    decreases raws.len(),
{
    if raws.len() == 0 {
        st
    } else {
        let stp = pgn_token_step(st, raws.first());
        if stp.1 {
            stp.0
        } else {
            pgn_tokens(stp.0, raws.drop_first())
        }
    }
}

/// One line: a `[` tag line may fix the winner (only an exact `[Result`
/// line changes it) and is otherwise skipped; move text starts at the
/// first `1.` line and is folded token by token.
pub open spec fn pgn_line_step(st: PgnState, line: Seq<u8>) -> PgnState {
    if crate::uci::starts_with_spec(line, open_bracket()) {
        if crate::uci::starts_with_spec(line, result_tag()) {
            let w = if line == white_result_line() {
                Option::Some(true)
            } else if line == black_result_line() {
                Option::Some(false)
            } else {
                Option::<bool>::None
            };
            mk_state(w, st.parsing, st.cur, st.white, st.black, st.draws)
        } else {
            st
        }
    } else {
        let st1 = if crate::uci::starts_with_spec(line, first_move_marker()) {
            mk_state(st.winner, true, st.cur, st.white, st.black, st.draws)
        } else {
            st
        };
        if st1.parsing {
            pgn_tokens(st1, split_on(line, SPACE))
        } else {
            st1
        }
    }
}

pub open spec fn pgn_lines(st: PgnState, lines: Seq<Seq<u8>>) -> PgnState
    decreases lines.len(),
{
    if lines.len() == 0 {
        st
    } else {
        pgn_lines(pgn_line_step(st, lines.first()), lines.drop_first())
    }
}

/// One file: the winner, the parsing flag and the accumulated line start
/// afresh; the buckets carry over.
pub open spec fn pgn_file_step(st: PgnState, file: Seq<u8>) -> PgnState {
    pgn_lines(
        mk_state(None, false, Seq::empty(), st.white, st.black, st.draws),
        split_on(file, NEWLINE),
    )
}

/// The whole pass: every file folded in order.
pub open spec fn pgn_files(st: PgnState, files: Seq<Seq<u8>>) -> PgnState
    decreases files.len(),
{
    if files.len() == 0 {
        st
    } else {
        pgn_files(pgn_file_step(st, files.first()), files.drop_first())
    }
}

pub open spec fn same_buckets(a: PgnState, b: PgnState) -> bool {
    a.white == b.white && a.black == b.black && a.draws == b.draws
}

/// The pass reads nothing but the buckets from its incoming state: the
/// per-file reset discards the rest.
proof fn lemma_pgn_files_buckets(a: PgnState, b: PgnState, files: Seq<Seq<u8>>)
    requires
        same_buckets(a, b),
    ensures
        same_buckets(pgn_files(a, files), pgn_files(b, files)),
    decreases files.len(),
{
    if files.len() > 0 {
        assert(mk_state(None, false, Seq::empty(), a.white, a.black, a.draws) == mk_state(
            None,
            false,
            Seq::empty(),
            b.white,
            b.black,
            b.draws,
        ));
        assert(pgn_file_step(a, files.first()) == pgn_file_step(b, files.first()));
        lemma_pgn_files_buckets(
            pgn_file_step(a, files.first()),
            pgn_file_step(b, files.first()),
            files.drop_first(),
        );
    }
}

/// Extract from PGN text the move sequence of every finished game, one
/// line per game, bucketed by outcome: white wins, black wins, drawn or
/// unknown.  The result is exactly the `pgn_files` fold of the input: a
/// `[Result` tag fixes the bucket, move text starts at the first `1.`
/// line, move numbers are stripped from their tokens, and a result marker
/// ends the game.  Every produced line is newline-free, so the next stage
/// can split on game boundaries.
pub fn parse_pgns(files: &Vec<Vec<u8>>) -> (r: (Vec<Vec<u8>>, Vec<Vec<u8>>, Vec<Vec<u8>>))
    ensures
        ({
            let end = pgn_files(pgn_empty(), mseq(files@));
            mseq(r.0@) == end.white && mseq(r.1@) == end.black && mseq(r.2@) == end.draws
        }),
        forall|i: int| 0 <= i < r.0@.len() ==> sep_free(#[trigger] r.0@[i]@, NEWLINE),
        forall|i: int| 0 <= i < r.1@.len() ==> sep_free(#[trigger] r.1@[i]@, NEWLINE),
        forall|i: int| 0 <= i < r.2@.len() ==> sep_free(#[trigger] r.2@[i]@, NEWLINE),
{
    let ghost filesv = mseq(files@);
    let ghost total = pgn_files(pgn_empty(), filesv);
    let mut white: Vec<Vec<u8>> = Vec::new();
    let mut black: Vec<Vec<u8>> = Vec::new();
    let mut draw: Vec<Vec<u8>> = Vec::new();
    let mut f: usize = 0;
    proof {
        assert(filesv.skip(0) =~= filesv);
        assert(mseq(white@) =~= Seq::<Seq<u8>>::empty());
        assert(mseq(black@) =~= Seq::<Seq<u8>>::empty());
        assert(mseq(draw@) =~= Seq::<Seq<u8>>::empty());
    }
    while f < files.len()
        invariant
            0 <= f <= files@.len(),
            filesv == mseq(files@),
            total == pgn_files(pgn_empty(), filesv),
            same_buckets(
                total,
                pgn_files(
                    mk_state(
                        None,
                        false,
                        Seq::empty(),
                        mseq(white@),
                        mseq(black@),
                        mseq(draw@),
                    ),
                    filesv.skip(f as int),
                ),
            ),
            forall|i: int| 0 <= i < white@.len() ==> sep_free(#[trigger] white@[i]@, NEWLINE),
            forall|i: int| 0 <= i < black@.len() ==> sep_free(#[trigger] black@[i]@, NEWLINE),
            forall|i: int| 0 <= i < draw@.len() ==> sep_free(#[trigger] draw@[i]@, NEWLINE),
        decreases files@.len() - f,
    {
        let lines = split_bytes(&files[f], NEWLINE);
        let ghost linesv = split_on(files@[f as int]@, NEWLINE);
        proof {
            lemma_split_parts_free(files@[f as int]@, NEWLINE, NEWLINE);
            // Unfold one file of the pass: the reset state is the state we
            // already hold.
            let bs = mk_state(
                None,
                false,
                Seq::empty(),
                mseq(white@),
                mseq(black@),
                mseq(draw@),
            );
            assert(filesv.skip(f as int).first() == files@[f as int]@);
            assert(filesv.skip(f as int).drop_first() =~= filesv.skip(f + 1));
            assert(mk_state(None, false, Seq::empty(), bs.white, bs.black, bs.draws) == bs);
            assert(pgn_files(bs, filesv.skip(f as int)) == pgn_files(
                pgn_lines(bs, linesv),
                filesv.skip(f + 1),
            ));
            assert(linesv.skip(0) =~= linesv);
        }
        // `Some(true)`: white won; `Some(false)`: black won; `None`: drawn
        // or unknown.
        let mut winner: Option<bool> = None;
        let mut parse_moves = false;
        let mut cur: Vec<u8> = Vec::new();
        let mut li: usize = 0;
        while li < lines.len()
            invariant
                0 <= li <= lines@.len(),
                filesv == mseq(files@),
                f < files@.len(),
                total == pgn_files(pgn_empty(), filesv),
                linesv == split_on(files@[f as int]@, NEWLINE),
                lines@.map_values(|p: Vec<u8>| p@) == linesv,
                same_buckets(
                    total,
                    pgn_files(
                        pgn_lines(
                            mk_state(
                                winner,
                                parse_moves,
                                cur@,
                                mseq(white@),
                                mseq(black@),
                                mseq(draw@),
                            ),
                            linesv.skip(li as int),
                        ),
                        filesv.skip(f + 1),
                    ),
                ),
                forall|i: int|
                    0 <= i < lines@.len() ==> sep_free(
                        #[trigger] split_on(files@[f as int]@, NEWLINE)[i],
                        NEWLINE,
                    ),
                sep_free(cur@, NEWLINE),
                forall|i: int| 0 <= i < white@.len() ==> sep_free(#[trigger] white@[i]@, NEWLINE),
                forall|i: int| 0 <= i < black@.len() ==> sep_free(#[trigger] black@[i]@, NEWLINE),
                forall|i: int| 0 <= i < draw@.len() ==> sep_free(#[trigger] draw@[i]@, NEWLINE),
            decreases lines@.len() - li,
        {
            let line = &lines[li];
            let ghost st0 = mk_state(
                winner,
                parse_moves,
                cur@,
                mseq(white@),
                mseq(black@),
                mseq(draw@),
            );
            proof {
                assert(line@ == linesv[li as int]);
                assert(sep_free(line@, NEWLINE));
                assert(linesv.skip(li as int).first() == linesv[li as int]);
                assert(linesv.skip(li as int).drop_first() =~= linesv.skip(li + 1));
                assert(pgn_lines(st0, linesv.skip(li as int)) == pgn_lines(
                    pgn_line_step(st0, line@),
                    linesv.skip(li + 1),
                ));
            }
            // A tag line: `[` ... only `[Result` matters.
            let bracket: Vec<u8> = vec![0x5bu8];
            proof {
                assert(bracket@ =~= open_bracket());
            }
            if starts_with(line, &bracket) {
                let result_line: Vec<u8> = vec![0x5bu8, 0x52u8, 0x65u8, 0x73u8, 0x75u8, 0x6cu8,
                    0x74u8];
                proof {
                    assert(result_line@ =~= result_tag());
                }
                if starts_with(line, &result_line) {
                    let white_tag: Vec<u8> = vec![0x5bu8, 0x52u8, 0x65u8, 0x73u8, 0x75u8, 0x6cu8,
                        0x74u8, 0x20u8, 0x22u8, 0x31u8, 0x2du8, 0x30u8, 0x22u8, 0x5du8];
                    let black_tag: Vec<u8> = vec![0x5bu8, 0x52u8, 0x65u8, 0x73u8, 0x75u8, 0x6cu8,
                        0x74u8, 0x20u8, 0x22u8, 0x30u8, 0x2du8, 0x31u8, 0x22u8, 0x5du8];
                    proof {
                        assert(white_tag@ =~= white_result_line());
                        assert(black_tag@ =~= black_result_line());
                    }
                    if bytes_eq(line, &white_tag) {
                        winner = Some(true);
                    } else if bytes_eq(line, &black_tag) {
                        winner = Some(false);
                    } else {
                        winner = None;
                    }
                }
                proof {
                    assert(mk_state(
                        winner,
                        parse_moves,
                        cur@,
                        mseq(white@),
                        mseq(black@),
                        mseq(draw@),
                    ) == pgn_line_step(st0, line@));
                }
                li += 1;
                continue;
            }
            // Move text begins at the `1.` line.
            let first_move: Vec<u8> = vec![0x31u8, 0x2eu8];
            proof {
                assert(first_move@ =~= first_move_marker());
            }
            if starts_with(line, &first_move) {
                parse_moves = true;
            }
            let ghost st1 = mk_state(
                winner,
                parse_moves,
                cur@,
                mseq(white@),
                mseq(black@),
                mseq(draw@),
            );
            if parse_moves {
                let toks = split_bytes(line, SPACE);
                let ghost tokv = split_on(line@, SPACE);
                proof {
                    lemma_split_parts_free(line@, SPACE, NEWLINE);
                    assert(pgn_line_step(st0, line@) == pgn_tokens(st1, tokv));
                    assert(tokv.skip(0) =~= tokv);
                }
                let mut ti: usize = 0;
                while ti < toks.len()
                    invariant_except_break
                        same_buckets(
                            total,
                            pgn_files(
                                pgn_lines(
                                    pgn_tokens(
                                        mk_state(
                                            winner,
                                            parse_moves,
                                            cur@,
                                            mseq(white@),
                                            mseq(black@),
                                            mseq(draw@),
                                        ),
                                        tokv.skip(ti as int),
                                    ),
                                    linesv.skip(li + 1),
                                ),
                                filesv.skip(f + 1),
                            ),
                        ),
                    invariant
                        0 <= ti <= toks@.len(),
                        filesv == mseq(files@),
                        f < files@.len(),
                        total == pgn_files(pgn_empty(), filesv),
                        linesv == split_on(files@[f as int]@, NEWLINE),
                        li < linesv.len(),
                        tokv == split_on(linesv[li as int], SPACE),
                        toks@.map_values(|p: Vec<u8>| p@) == tokv,
                        forall|i: int|
                            0 <= i < toks@.len() ==> sep_free(
                                #[trigger] split_on(linesv[li as int], SPACE)[i],
                                NEWLINE,
                            ),
                        sep_free(cur@, NEWLINE),
                        forall|i: int|
                            0 <= i < white@.len() ==> sep_free(#[trigger] white@[i]@, NEWLINE),
                        forall|i: int|
                            0 <= i < black@.len() ==> sep_free(#[trigger] black@[i]@, NEWLINE),
                        forall|i: int|
                            0 <= i < draw@.len() ==> sep_free(#[trigger] draw@[i]@, NEWLINE),
                    ensures
                        same_buckets(
                            total,
                            pgn_files(
                                pgn_lines(
                                    mk_state(
                                        winner,
                                        parse_moves,
                                        cur@,
                                        mseq(white@),
                                        mseq(black@),
                                        mseq(draw@),
                                    ),
                                    linesv.skip(li + 1),
                                ),
                                filesv.skip(f + 1),
                            ),
                        ),
                        sep_free(cur@, NEWLINE),
                        forall|i: int|
                            0 <= i < white@.len() ==> sep_free(#[trigger] white@[i]@, NEWLINE),
                        forall|i: int|
                            0 <= i < black@.len() ==> sep_free(#[trigger] black@[i]@, NEWLINE),
                        forall|i: int|
                            0 <= i < draw@.len() ==> sep_free(#[trigger] draw@[i]@, NEWLINE),
                    decreases toks@.len() - ti,
                {
                    let ghost stt = mk_state(
                        winner,
                        parse_moves,
                        cur@,
                        mseq(white@),
                        mseq(black@),
                        mseq(draw@),
                    );
                    let tok = trim_bytes(&toks[ti]);
                    proof {
                        assert(toks@[ti as int]@ == tokv[ti as int]);
                        lemma_strip_front_free(toks@[ti as int]@, NEWLINE);
                        lemma_strip_back_free(
                            crate::uci::strip_front(toks@[ti as int]@),
                            NEWLINE,
                        );
                        assert(tokv.skip(ti as int).first() == tokv[ti as int]);
                        assert(tokv.skip(ti as int).drop_first() =~= tokv.skip(ti + 1));
                    }
                    // A result marker: `1-0`, `0-1` or `1/2-1/2` ends the game.
                    let won: Vec<u8> = vec![0x31u8, 0x2du8, 0x30u8];
                    let lost: Vec<u8> = vec![0x30u8, 0x2du8, 0x31u8];
                    let drawn: Vec<u8> = vec![0x31u8, 0x2fu8, 0x32u8, 0x2du8, 0x31u8, 0x2fu8,
                        0x32u8];
                    proof {
                        assert(won@ =~= white_marker());
                        assert(lost@ =~= black_marker());
                        assert(drawn@ =~= draw_marker());
                    }
                    if bytes_eq(&tok, &won) || bytes_eq(&tok, &lost) || bytes_eq(&tok, &drawn) {
                        let squeezed = collapse_double_spaces(&cur);
                        let finished = trim_bytes(&squeezed);
                        proof {
                            lemma_strip_front_free(squeezed@, NEWLINE);
                            lemma_strip_back_free(crate::uci::strip_front(squeezed@), NEWLINE);
                            assert(finished@ == finished_game(cur@));
                        }
                        match winner {
                            Option::Some(true) => white.push(finished),
                            Option::Some(false) => black.push(finished),
                            _ => draw.push(finished),
                        }
                        parse_moves = false;
                        cur = Vec::new();
                        proof {
                            let stp = pgn_token_step(stt, tokv[ti as int]);
                            assert(stp.1);
                            assert(mseq(white@) =~= (match stt.winner {
                                Option::Some(true) => stt.white.push(finished_game(stt.cur)),
                                _ => stt.white,
                            }));
                            assert(mseq(black@) =~= (match stt.winner {
                                Option::Some(false) => stt.black.push(finished_game(stt.cur)),
                                _ => stt.black,
                            }));
                            assert(mseq(draw@) =~= (match stt.winner {
                                Option::None => stt.draws.push(finished_game(stt.cur)),
                                _ => stt.draws,
                            }));
                            assert(cur@ =~= Seq::<u8>::empty());
                            assert(mk_state(
                                winner,
                                parse_moves,
                                cur@,
                                mseq(white@),
                                mseq(black@),
                                mseq(draw@),
                            ) == stp.0);
                            assert(pgn_tokens(stt, tokv.skip(ti as int)) == stp.0);
                        }
                        break ;
                    }
                    // Strip a leading move number: keep the piece
                    // between the first and second dot of the token.
                    let pieces = split_bytes(&tok, 0x2e);
                    let mut clean: Vec<u8> = Vec::new();
                    if pieces.len() >= 2 {
                        proof {
                            lemma_split_parts_free(tok@, 0x2e, NEWLINE);
                            assert(pieces@[1]@ == split_on(tok@, 0x2e)[1]);
                        }
                        crate::book::push_bytes(&mut clean, &pieces[1]);
                    } else {
                        crate::book::push_bytes(&mut clean, &tok);
                    }
                    proof {
                        assert(sep_free(clean@, NEWLINE));
                    }
                    let ghost clean_pre = clean@;
                    let clean = trim_bytes(&clean);
                    proof {
                        lemma_strip_front_free(clean_pre, NEWLINE);
                        lemma_strip_back_free(crate::uci::strip_front(clean_pre), NEWLINE);
                        assert(sep_free(clean@, NEWLINE));
                        assert(clean_pre =~= (if split_on(tok@, 0x2e).len() >= 2 {
                            split_on(tok@, 0x2e)[1]
                        } else {
                            tok@
                        }));
                        assert(clean@ == stripped_token(tok@));
                    }
                    crate::book::push_bytes(&mut cur, &clean);
                    cur.push(SPACE);
                    proof {
                        assert(sep_free(cur@, NEWLINE));
                        let stp = pgn_token_step(stt, tokv[ti as int]);
                        assert(!stp.1);
                        assert(cur@ =~= stt.cur + stripped_token(tok@) + seq![SPACE]);
                        assert(mk_state(
                            winner,
                            parse_moves,
                            cur@,
                            mseq(white@),
                            mseq(black@),
                            mseq(draw@),
                        ) == stp.0);
                        assert(pgn_tokens(stt, tokv.skip(ti as int)) == pgn_tokens(
                            stp.0,
                            tokv.skip(ti + 1),
                        ));
                    }
                    ti += 1;
                }
            } else {
                proof {
                    assert(pgn_line_step(st0, line@) == st1);
                }
            }
            li += 1;
        }
        proof {
            assert(linesv.skip(linesv.len() as int) =~= Seq::<Seq<u8>>::empty());
            let stf = mk_state(
                winner,
                parse_moves,
                cur@,
                mseq(white@),
                mseq(black@),
                mseq(draw@),
            );
            assert(pgn_lines(stf, linesv.skip(lines@.len() as int)) == stf);
            let bs2 = mk_state(
                None,
                false,
                Seq::empty(),
                mseq(white@),
                mseq(black@),
                mseq(draw@),
            );
            lemma_pgn_files_buckets(stf, bs2, filesv.skip(f + 1));
        }
        f += 1;
    }
    proof {
        assert(filesv.skip(files@.len() as int) =~= Seq::<Seq<u8>>::empty());
    }
    (white, black, draw)
}

} // verus!
