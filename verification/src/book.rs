//! The opening book: its text format and its lookup policy.
//!
//! A book table is stored as newline-delimited text, one line per position
//! fingerprint: the fingerprint in decimal, then the recorded move
//! notations, space-separated.  This module gives the format an exact
//! specification (`book_entries` / `book_bytes`), executable parsing and
//! serialization proved against it, and the round-trip theorem that
//! reparsing a serialized table yields the same table.
//!
//! Lookup policy: a probe consults the table matching the side to move's
//! favorable outcome, falling back to the drawn-games table; the engine's
//! out-of-book latch around it lives in `engine`.

use vstd::prelude::*;
use vstd::slice::slice_index_get;
use std::collections::HashMap;

verus! {

broadcast use vstd::std_specs::hash::group_hash_axioms;

pub const SPACE: u8 = 0x20;

pub const NEWLINE: u8 = 0x0a;

pub open spec fn is_digit(b: u8) -> bool {
    0x30 <= b <= 0x39
}

pub open spec fn all_digits(s: Seq<u8>) -> bool {
    forall|i: int| 0 <= i < s.len() ==> is_digit(#[trigger] s[i])
}

/// The number denoted by a string of decimal digits (most significant first).
pub open spec fn dec_val(s: Seq<u8>) -> int
    decreases s.len(),
{
    if s.len() == 0 {
        0
    } else {
        dec_val(s.drop_last()) * 10 + (s.last() - 0x30)
    }
}

/// The canonical decimal digit string of a number (no leading zeros).
pub open spec fn dec_digits(n: nat) -> Seq<u8>
    decreases n,
    via dec_digits_decreases
{
    if n < 10 {
        seq![(0x30 + n) as u8]
    } else {
        dec_digits(n / 10).push((0x30 + n % 10) as u8)
    }
}

#[via_fn]
proof fn dec_digits_decreases(n: nat) {
    if n >= 10 {
        assert(n / 10 < n) by (nonlinear_arith)
            requires
                n >= 10,
        ;
    }
}

/// Printing a number and reading the digits back is the identity.
pub proof fn lemma_dec_digits_val(n: nat)
    ensures
        dec_val(dec_digits(n)) == n,
        dec_digits(n).len() >= 1,
        all_digits(dec_digits(n)),
    decreases n,
{
    if n < 10 {
        let d = (0x30 + n) as u8;
        let w = seq![d];
        assert(d == 0x30 + n);
        assert(w.drop_last() =~= Seq::<u8>::empty());
        assert(dec_val(w) == dec_val(w.drop_last()) * 10 + (w.last() - 0x30));
    } else {
        assert(n / 10 < n && n / 10 >= 1 && n % 10 < 10 && n == (n / 10) * 10 + n % 10)
            by (nonlinear_arith)
            requires
                n >= 10,
        ;
        lemma_dec_digits_val(n / 10);
        let d = (0x30 + n % 10) as u8;
        let w = dec_digits(n / 10).push(d);
        assert(w.drop_last() =~= dec_digits(n / 10));
        assert(w.last() == d);
        assert(dec_val(w) == dec_val(dec_digits(n / 10)) * 10 + (d - 0x30));
    }
}

/// Every digit string denotes a non-negative number, and appending digits
/// never decreases the value: once a prefix exceeds a bound, the whole
/// string does too.
pub proof fn lemma_dec_val_nonneg(s: Seq<u8>)
    requires
        all_digits(s),
    ensures
        dec_val(s) >= 0,
    decreases s.len(),
{
    if s.len() > 0 {
        assert(all_digits(s.drop_last())) by {
            assert(forall|i: int| 0 <= i < s.len() - 1 ==> s.drop_last()[i] == s[i]);
        }
        lemma_dec_val_nonneg(s.drop_last());
    }
}

pub proof fn lemma_dec_val_grows(s: Seq<u8>, i: int)
    requires
        all_digits(s),
        0 <= i <= s.len(),
    ensures
        dec_val(s) >= dec_val(s.subrange(0, i)),
    decreases s.len() - i,
{
    if i == s.len() {
        assert(s.subrange(0, i) =~= s);
    } else {
        lemma_dec_val_grows(s, i + 1);
        let p = s.subrange(0, i + 1);
        assert(p.drop_last() =~= s.subrange(0, i));
        assert(all_digits(s.subrange(0, i))) by {
            assert(forall|j: int| 0 <= j < i ==> s.subrange(0, i)[j] == s[j]);
        }
        lemma_dec_val_nonneg(s.subrange(0, i));
        assert(dec_val(p) == dec_val(s.subrange(0, i)) * 10 + (s[i] - 0x30));
    }
}

/// Parse a decimal `u64`.  Succeeds exactly on non-empty all-digit strings
/// whose value fits in a `u64`, and then returns that value.
pub fn parse_u64(tok: &Vec<u8>) -> (r: Option<u64>)
    ensures
        r is Some <==> tok@.len() > 0 && all_digits(tok@) && dec_val(tok@) <= u64::MAX,
        r matches Some(v) ==> v == dec_val(tok@),
{
    if tok.len() == 0 {
        return None;
    }
    let mut acc: u64 = 0;
    let mut i: usize = 0;
    while i < tok.len()
        invariant
            0 <= i <= tok@.len(),
            tok@.len() > 0,
            all_digits(tok@.subrange(0, i as int)),
            acc == dec_val(tok@.subrange(0, i as int)),
        decreases tok@.len() - i,
    {
        let b = tok[i];
        if b < 0x30 || b > 0x39 {
            return None;
        }
        let d = b - 0x30;
        proof {
            let p = tok@.subrange(0, i + 1);
            assert(p.drop_last() =~= tok@.subrange(0, i as int));
            assert(p.last() == tok@[i as int]);
            assert(all_digits(p));
        }
        if acc > 1844674407370955161u64 || (acc == 1844674407370955161u64 && d > 5) {
            proof {
                assert(dec_val(tok@.subrange(0, i + 1)) > u64::MAX);
                if all_digits(tok@) {
                    lemma_dec_val_grows(tok@, i + 1);
                }
            }
            return None;
        }
        acc = acc * 10 + (d as u64);
        i += 1;
    }
    proof {
        assert(tok@.subrange(0, tok@.len() as int) =~= tok@);
    }
    Some(acc)
}

/// Print a `u64` in decimal.
pub fn u64_to_dec(n: u64) -> (r: Vec<u8>)
    ensures
        r@ == dec_digits(n as nat),
    decreases n,
{
    if n < 10 {
        let mut v: Vec<u8> = Vec::new();
        v.push(0x30 + (n as u8));
        proof {
            assert(v@ =~= dec_digits(n as nat));
        }
        v
    } else {
        proof {
            assert(n as nat / 10 < n as nat) by (nonlinear_arith)
                requires
                    n >= 10,
            ;
        }
        let mut v = u64_to_dec(n / 10);
        v.push(0x30 + ((n % 10) as u8));
        proof {
            assert(v@ =~= dec_digits(n as nat));
        }
        v
    }
}

/// The index of the first occurrence of `sep` in `s`, or `s.len()` if absent.
pub open spec fn idx_of(s: Seq<u8>, sep: u8) -> int
    decreases s.len(),
{
    if s.len() == 0 {
        0
    } else if s[0] == sep {
        0
    } else {
        1 + idx_of(s.drop_first(), sep)
    }
}

pub proof fn lemma_idx_of_props(s: Seq<u8>, sep: u8)
    ensures
        0 <= idx_of(s, sep) <= s.len(),
        forall|j: int| 0 <= j < idx_of(s, sep) ==> s[j] != sep,
        idx_of(s, sep) < s.len() ==> s[idx_of(s, sep)] == sep,
    decreases s.len(),
{
    if s.len() > 0 && s[0] != sep {
        lemma_idx_of_props(s.drop_first(), sep);
        assert(forall|j: int| 0 <= j < s.len() - 1 ==> s.drop_first()[j] == s[j + 1]);
        assert forall|j: int| 0 <= j < idx_of(s, sep) implies s[j] != sep by {
            if j > 0 {
                assert(s.drop_first()[j - 1] != sep);
                assert(s.drop_first()[j - 1] == s[j]);
            }
        }
    }
}

pub proof fn lemma_idx_of_exact(s: Seq<u8>, sep: u8, pos: int)
    requires
        0 <= pos <= s.len(),
        forall|j: int| 0 <= j < pos ==> s[j] != sep,
        pos == s.len() || s[pos] == sep,
    ensures
        idx_of(s, sep) == pos,
    decreases s.len(),
{
    if pos == 0 {
    } else {
        assert(s[0] != sep);
        assert(forall|j: int| 0 <= j < s.len() - 1 ==> s.drop_first()[j] == s[j + 1]);
        lemma_idx_of_exact(s.drop_first(), sep, pos - 1);
    }
}

/// Split `s` at every occurrence of `sep`.  The result always has at least
/// one part; separators are not kept, and empty parts are kept.
pub open spec fn split_on(s: Seq<u8>, sep: u8) -> Seq<Seq<u8>>
    decreases s.len(),
{
    let i = idx_of(s, sep);
    if 0 <= i < s.len() {
        seq![s.subrange(0, i)] + split_on(s.subrange(i + 1, s.len() as int), sep)
    } else {
        seq![s]
    }
}

pub open spec fn sep_free(p: Seq<u8>, sep: u8) -> bool {
    forall|j: int| 0 <= j < p.len() ==> p[j] != sep
}

/// Join parts with a separator between consecutive parts.
pub open spec fn join_with(parts: Seq<Seq<u8>>, sep: u8) -> Seq<u8>
    decreases parts.len(),
{
    if parts.len() == 0 {
        Seq::empty()
    } else if parts.len() == 1 {
        parts[0]
    } else {
        parts[0] + seq![sep] + join_with(parts.drop_first(), sep)
    }
}

/// Splitting inverts joining, as long as no part contains the separator.
pub proof fn lemma_split_of_join(parts: Seq<Seq<u8>>, sep: u8)
    requires
        parts.len() >= 1,
        forall|i: int| 0 <= i < parts.len() ==> sep_free(#[trigger] parts[i], sep),
    ensures
        split_on(join_with(parts, sep), sep) == parts,
    decreases parts.len(),
{
    let jn = join_with(parts, sep);
    if parts.len() == 1 {
        lemma_idx_of_exact(jn, sep, jn.len() as int);
        assert(split_on(jn, sep) =~= parts);
    } else {
        let rest = join_with(parts.drop_first(), sep);
        let head = parts[0];
        assert(jn =~= head + seq![sep] + rest);
        let hl = head.len() as int;
        assert(forall|j: int| 0 <= j < hl ==> jn[j] == head[j] && jn[j] != sep);
        assert(jn[hl] == sep);
        lemma_idx_of_exact(jn, sep, hl);
        assert(jn.subrange(0, hl) =~= head);
        assert(jn.subrange(hl + 1, jn.len() as int) =~= rest);
        assert(forall|i: int|
            0 <= i < parts.len() - 1 ==> parts.drop_first()[i] == #[trigger] parts[i + 1]);
        lemma_split_of_join(parts.drop_first(), sep);
        assert(split_on(jn, sep) =~= seq![head] + parts.drop_first());
        assert(seq![head] + parts.drop_first() =~= parts);
    }
}

/// Every part of a split is free of the separator it was split on, and
/// splitting cannot introduce a byte the whole string did not contain.
pub proof fn lemma_split_parts_free(s: Seq<u8>, sep: u8, bad: u8)
    requires
        bad == sep || sep_free(s, bad),
    ensures
        forall|i: int|
            0 <= i < split_on(s, sep).len() ==> sep_free(#[trigger] split_on(s, sep)[i], bad),
    decreases s.len(),
{
    lemma_idx_of_props(s, sep);
    let k = idx_of(s, sep);
    if 0 <= k < s.len() {
        let head = s.subrange(0, k);
        let tail = s.subrange(k + 1, s.len() as int);
        assert(forall|j: int| 0 <= j < head.len() ==> head[j] == s[j]);
        assert(sep_free(head, bad));
        assert(forall|j: int| 0 <= j < tail.len() ==> tail[j] == s[k + 1 + j]);
        assert(bad == sep || sep_free(tail, bad));
        lemma_split_parts_free(tail, sep, bad);
        assert forall|i: int| 0 <= i < split_on(s, sep).len() implies sep_free(
            #[trigger] split_on(s, sep)[i],
            bad,
        ) by {
            if i == 0 {
                assert(split_on(s, sep)[0] == head);
            } else {
                assert(split_on(s, sep)[i] == split_on(tail, sep)[i - 1]);
            }
        }
    } else {
        assert(k == s.len());
        assert(sep_free(s, bad));
        assert(split_on(s, sep) == seq![s]);
    }
}

/// Split a byte string at every occurrence of `sep`, executably.
pub fn split_bytes(s: &Vec<u8>, sep: u8) -> (r: Vec<Vec<u8>>)
    ensures
        r@.map_values(|p: Vec<u8>| p@) == split_on(s@, sep),
{
    let n = s.len();
    let mut r: Vec<Vec<u8>> = Vec::new();
    let mut pos: usize = 0;
    proof {
        assert(r@.map_values(|p: Vec<u8>| p@) =~= Seq::<Seq<u8>>::empty());
        assert(s@.subrange(0, n as int) =~= s@);
    }
    loop
        invariant
            0 <= pos <= n,
            n == s@.len(),
            split_on(s@, sep) =~= r@.map_values(|p: Vec<u8>| p@) + split_on(
                s@.subrange(pos as int, n as int),
                sep,
            ),
        decreases n - pos,
    {
        let mut j = pos;
        while j < n && *slice_index_get(s.as_slice(), j) != sep
            invariant
                pos <= j <= n,
                n == s@.len(),
                forall|k: int| pos <= k < j ==> s@[k] != sep,
            decreases n - j,
        {
            j += 1;
        }
        let mut seg: Vec<u8> = Vec::new();
        let mut k = pos;
        while k < j
            invariant
                pos <= k <= j <= n,
                n == s@.len(),
                seg@ =~= s@.subrange(pos as int, k as int),
            decreases j - k,
        {
            seg.push(*slice_index_get(s.as_slice(), k));
            proof {
                assert(seg@ =~= s@.subrange(pos as int, k + 1));
            }
            k += 1;
        }
        let ghost tail = s@.subrange(pos as int, n as int);
        let ghost prev = r@.map_values(|p: Vec<u8>| p@);
        proof {
            assert(forall|t: int| 0 <= t < tail.len() ==> tail[t] == s@[pos + t]);
        }
        if j == n {
            proof {
                lemma_idx_of_exact(tail, sep, tail.len() as int);
                assert(split_on(tail, sep) =~= seq![tail]);
                assert(seg@ =~= tail);
            }
            r.push(seg);
            proof {
                assert(r@.map_values(|p: Vec<u8>| p@) =~= prev + seq![tail]);
                assert(r@.map_values(|p: Vec<u8>| p@) =~= split_on(s@, sep));
            }
            return r;
        }
        proof {
            lemma_idx_of_exact(tail, sep, j - pos);
            assert(tail.subrange(0, j - pos) =~= seg@);
            assert(tail.subrange(j - pos + 1, tail.len() as int) =~= s@.subrange(
                j + 1,
                n as int,
            ));
            assert(split_on(tail, sep) =~= seq![seg@] + split_on(s@.subrange(j + 1, n as int), sep));
        }
        r.push(seg);
        pos = j + 1;
        proof {
            assert(r@.map_values(|p: Vec<u8>| p@) =~= prev + seq![seg@]);
        }
    }
}

/// One parsed book line: a position fingerprint and the move notations
/// recorded for it.
pub struct BookLine {
    pub hash: u64,
    pub moves: Vec<Vec<u8>>,
}

pub open spec fn line_view(l: BookLine) -> (u64, Seq<Seq<u8>>) {
    (l.hash, l.moves@.map_values(|m: Vec<u8>| m@))
}

pub open spec fn book_view(v: Seq<BookLine>) -> Seq<(u64, Seq<Seq<u8>>)> {
    v.map_values(|l: BookLine| line_view(l))
}

/// The tokens of one line: the fingerprint in decimal, then the moves.
pub open spec fn tokens_of(e: (u64, Seq<Seq<u8>>)) -> Seq<Seq<u8>> {
    seq![dec_digits(e.0 as nat)] + e.1
}

pub open spec fn line_bytes(e: (u64, Seq<Seq<u8>>)) -> Seq<u8> {
    join_with(tokens_of(e), SPACE)
}

/// The serialized form of a whole table: every line followed by a newline.
pub open spec fn book_bytes(entries: Seq<(u64, Seq<Seq<u8>>)>) -> Seq<u8>
    decreases entries.len(),
{
    if entries.len() == 0 {
        Seq::empty()
    } else {
        line_bytes(entries.first()) + seq![NEWLINE] + book_bytes(entries.drop_first())
    }
}

/// Parsing one line: the first space-separated token must be a decimal
/// fingerprint that fits in a `u64`; the remaining tokens are the moves.
pub open spec fn parse_line(s: Seq<u8>) -> Option<(u64, Seq<Seq<u8>>)> {
    let toks = split_on(s, SPACE);
    let h = toks[0];
    if h.len() > 0 && all_digits(h) && dec_val(h) <= u64::MAX {
        Some(((dec_val(h) as u64), toks.drop_first()))
    } else {
        None
    }
}

/// Parsing a sequence of lines, skipping empty ones; any malformed line
/// makes the whole table malformed.
pub open spec fn parse_parts(parts: Seq<Seq<u8>>) -> Option<Seq<(u64, Seq<Seq<u8>>)>>
    decreases parts.len(),
{
    if parts.len() == 0 {
        Some(Seq::empty())
    } else {
        match parse_parts(parts.drop_first()) {
            Option::None => Option::None,
            Option::Some(rest) => {
                if parts.first().len() == 0 {
                    Some(rest)
                } else {
                    match parse_line(parts.first()) {
                        Option::None => Option::None,
                        Option::Some(e) => Some(seq![e] + rest),
                    }
                }
            },
        }
    }
}

/// What a book file denotes: its newline-split lines, parsed.
pub open spec fn book_entries(s: Seq<u8>) -> Option<Seq<(u64, Seq<Seq<u8>>)>> {
    parse_parts(split_on(s, NEWLINE))
}

/// A move notation may contain neither a space nor a newline.
pub open spec fn move_token_ok(m: Seq<u8>) -> bool {
    sep_free(m, SPACE) && sep_free(m, NEWLINE)
}

pub open spec fn moves_ok(ms: Seq<Seq<u8>>) -> bool {
    forall|j: int| 0 <= j < ms.len() ==> move_token_ok(#[trigger] ms[j])
}

pub open spec fn wf_entries(entries: Seq<(u64, Seq<Seq<u8>>)>) -> bool {
    forall|i: int| 0 <= i < entries.len() ==> moves_ok(#[trigger] entries[i].1)
}

proof fn lemma_join_sep_free(parts: Seq<Seq<u8>>, sep: u8, bad: u8)
    requires
        sep != bad,
        forall|i: int| 0 <= i < parts.len() ==> sep_free(#[trigger] parts[i], bad),
    ensures
        sep_free(join_with(parts, sep), bad),
    decreases parts.len(),
{
    if parts.len() > 1 {
        assert(forall|i: int|
            0 <= i < parts.len() - 1 ==> parts.drop_first()[i] == #[trigger] parts[i + 1]);
        lemma_join_sep_free(parts.drop_first(), sep, bad);
    }
}

proof fn lemma_join_first_len(parts: Seq<Seq<u8>>, sep: u8)
    requires
        parts.len() >= 1,
    ensures
        join_with(parts, sep).len() >= parts[0].len(),
{
}

/// Serializing one line and parsing it back yields the same entry.
proof fn lemma_line_round_trip(e: (u64, Seq<Seq<u8>>))
    requires
        moves_ok(e.1),
    ensures
        parse_line(line_bytes(e)) == Some(e),
{
    let toks = tokens_of(e);
    lemma_dec_digits_val(e.0 as nat);
    assert(forall|i: int| 0 <= i < e.1.len() ==> toks[i + 1] == #[trigger] e.1[i]);
    assert(forall|i: int| 0 <= i < toks.len() ==> sep_free(#[trigger] toks[i], SPACE)) by {
        assert(sep_free(toks[0], SPACE));
    }
    lemma_split_of_join(toks, SPACE);
    assert(toks.drop_first() =~= e.1);
}

/// Round-trip of the book format: serializing a fingerprint-to-moves table
/// and reparsing it yields the same table.
pub proof fn lemma_book_round_trip(entries: Seq<(u64, Seq<Seq<u8>>)>)
    requires
        wf_entries(entries),
    ensures
        book_entries(book_bytes(entries)) == Some(entries),
    decreases entries.len(),
{
    if entries.len() == 0 {
        let w = book_bytes(entries);
        assert(w =~= Seq::<u8>::empty());
        lemma_idx_of_exact(w, NEWLINE, 0);
        assert(split_on(w, NEWLINE) =~= seq![w]);
        assert(seq![w].drop_first() =~= Seq::<Seq<u8>>::empty());
        assert(parse_parts(Seq::<Seq<u8>>::empty()) == Some(Seq::<(u64, Seq<Seq<u8>>)>::empty()));
        assert(parse_parts(seq![w]) == Some(Seq::<(u64, Seq<Seq<u8>>)>::empty()));
        assert(book_entries(book_bytes(entries)) == Some(entries));
    } else {
        let e0 = entries.first();
        let lb = line_bytes(e0);
        let rest = book_bytes(entries.drop_first());
        let w = book_bytes(entries);
        assert(w == lb + seq![NEWLINE] + rest);
        lemma_dec_digits_val(e0.0 as nat);
        assert(forall|i: int| 0 <= i < e0.1.len() ==> tokens_of(e0)[i + 1] == #[trigger] e0.1[i]);
        assert(sep_free(tokens_of(e0)[0], NEWLINE));
        lemma_join_sep_free(tokens_of(e0), SPACE, NEWLINE);
        lemma_join_first_len(tokens_of(e0), SPACE);
        assert(lb.len() >= 1);
        let hl = lb.len() as int;
        assert(forall|j: int| 0 <= j < hl ==> w[j] == lb[j] && w[j] != NEWLINE);
        assert(w[hl] == NEWLINE);
        lemma_idx_of_exact(w, NEWLINE, hl);
        assert(w.subrange(0, hl) =~= lb);
        assert(w.subrange(hl + 1, w.len() as int) =~= rest);
        assert(split_on(w, NEWLINE) == seq![lb] + split_on(rest, NEWLINE));
        assert(wf_entries(entries.drop_first())) by {
            assert(forall|i: int|
                0 <= i < entries.len() - 1 ==> entries.drop_first()[i] == #[trigger] entries[i
                    + 1]);
        }
        lemma_book_round_trip(entries.drop_first());
        lemma_line_round_trip(e0);
        let parts = seq![lb] + split_on(rest, NEWLINE);
        assert(parts.drop_first() =~= split_on(rest, NEWLINE));
        assert(parts.first() == lb);
        assert(parse_parts(parts) == Some(seq![e0] + entries.drop_first()));
        assert(seq![e0] + entries.drop_first() =~= entries);
    }
}

/// Append the bytes of `src` to `dst`.
pub fn push_bytes(dst: &mut Vec<u8>, src: &Vec<u8>)
    ensures
        final(dst)@ == old(dst)@ + src@,
{
    let mut k: usize = 0;
    while k < src.len()
        invariant
            0 <= k <= src@.len(),
            dst@ =~= old(dst)@ + src@.subrange(0, k as int),
        decreases src@.len() - k,
    {
        dst.push(src[k]);
        proof {
            assert(src@.subrange(0, k + 1) =~= src@.subrange(0, k as int).push(src@[k as int]));
        }
        k += 1;
    }
    proof {
        assert(src@.subrange(0, src@.len() as int) =~= src@);
    }
}

proof fn lemma_join_push(parts: Seq<Seq<u8>>, p: Seq<u8>, sep: u8)
    requires
        parts.len() >= 1,
    ensures
        join_with(parts.push(p), sep) == join_with(parts, sep) + seq![sep] + p,
    decreases parts.len(),
{
    if parts.len() == 1 {
        assert(parts.push(p).drop_first() =~= seq![p]);
        assert(join_with(seq![p], sep) == p);
        assert(join_with(parts.push(p), sep) =~= join_with(parts, sep) + seq![sep] + p);
    } else {
        assert(parts.push(p).drop_first() =~= parts.drop_first().push(p));
        lemma_join_push(parts.drop_first(), p, sep);
        assert(join_with(parts.push(p), sep) =~= join_with(parts, sep) + seq![sep] + p);
    }
}

proof fn lemma_book_bytes_snoc(entries: Seq<(u64, Seq<Seq<u8>>)>, e: (u64, Seq<Seq<u8>>))
    ensures
        book_bytes(entries.push(e)) == book_bytes(entries) + line_bytes(e) + seq![NEWLINE],
    decreases entries.len(),
{
    if entries.len() == 0 {
        assert(entries.push(e).first() == e);
        assert(entries.push(e).drop_first() =~= entries);
        assert(book_bytes(entries.push(e)) =~= book_bytes(entries) + line_bytes(e) + seq![NEWLINE]);
    } else {
        assert(entries.push(e).first() == entries.first());
        assert(entries.push(e).drop_first() =~= entries.drop_first().push(e));
        lemma_book_bytes_snoc(entries.drop_first(), e);
        assert(book_bytes(entries.push(e)) =~= book_bytes(entries) + line_bytes(e) + seq![NEWLINE]);
    }
}

/// Serialize one book line: the fingerprint in decimal, then each move
/// preceded by a single space.
pub fn serialize_line(l: &BookLine) -> (r: Vec<u8>)
    ensures
        r@ == line_bytes(line_view(*l)),
{
    let ghost toks = tokens_of(line_view(*l));
    let mut cur = u64_to_dec(l.hash);
    proof {
        assert(toks.subrange(0, 1) =~= seq![dec_digits(l.hash as nat)]);
        assert(join_with(toks.subrange(0, 1), SPACE) == cur@);
    }
    let mut j: usize = 0;
    while j < l.moves.len()
        invariant
            0 <= j <= l.moves@.len(),
            toks == tokens_of(line_view(*l)),
            toks.len() == l.moves@.len() + 1,
            forall|i: int| 0 <= i < l.moves@.len() ==> toks[i + 1] == #[trigger] l.moves@[i]@,
            cur@ == join_with(toks.subrange(0, j + 1), SPACE),
        decreases l.moves@.len() - j,
    {
        cur.push(SPACE);
        push_bytes(&mut cur, &l.moves[j]);
        proof {
            lemma_join_push(toks.subrange(0, j + 1), toks[j as int + 1], SPACE);
            assert(toks.subrange(0, j + 2) =~= toks.subrange(0, j + 1).push(toks[j as int + 1]));
            assert(cur@ =~= join_with(toks.subrange(0, j + 1), SPACE) + seq![SPACE] + toks[j as int
                + 1]);
        }
        j += 1;
    }
    proof {
        assert(toks.subrange(0, toks.len() as int) =~= toks);
    }
    cur
}

/// Serialize a whole table, one line per fingerprint.
pub fn serialize_book(lines: &Vec<BookLine>) -> (r: Vec<u8>)
    ensures
        r@ == book_bytes(book_view(lines@)),
{
    let mut out: Vec<u8> = Vec::new();
    let mut i: usize = 0;
    proof {
        assert(book_view(lines@).subrange(0, 0) =~= Seq::<(u64, Seq<Seq<u8>>)>::empty());
        assert(out@ =~= book_bytes(book_view(lines@).subrange(0, 0)));
    }
    while i < lines.len()
        invariant
            0 <= i <= lines@.len(),
            out@ == book_bytes(book_view(lines@).subrange(0, i as int)),
        decreases lines@.len() - i,
    {
        let seg = serialize_line(&lines[i]);
        push_bytes(&mut out, &seg);
        out.push(NEWLINE);
        proof {
            let bv = book_view(lines@);
            lemma_book_bytes_snoc(bv.subrange(0, i as int), bv[i as int]);
            assert(bv.subrange(0, i + 1) =~= bv.subrange(0, i as int).push(bv[i as int]));
            assert(bv[i as int] == line_view(lines@[i as int]));
            assert(out@ =~= book_bytes(bv.subrange(0, i as int)) + line_bytes(bv[i as int])
                + seq![NEWLINE]);
        }
        i += 1;
    }
    proof {
        assert(book_view(lines@).subrange(0, lines@.len() as int) =~= book_view(lines@));
    }
    out
}

/// Parse a whole book file into its lines.  Succeeds exactly when the
/// specification-level parse does, and then returns exactly its entries.
pub fn parse_book_lines(book: &Vec<u8>) -> (r: Option<Vec<BookLine>>)
    ensures
        r is Some <==> book_entries(book@) is Some,
        r matches Some(v) ==> Some(book_view(v@)) == book_entries(book@),
{
    let parts = split_bytes(book, NEWLINE);
    let ghost pv = parts@.map_values(|p: Vec<u8>| p@);
    let mut acc: Vec<BookLine> = Vec::new();
    let n = parts.len();
    let mut i: usize = n;
    let ghost mut suffix_entries = Seq::<(u64, Seq<Seq<u8>>)>::empty();
    proof {
        assert(pv.subrange(n as int, n as int) =~= Seq::<Seq<u8>>::empty());
    }
    // Walk the lines back to front, so the parse of the processed suffix is
    // always available as `suffix_entries`.
    while i > 0
        invariant
            0 <= i <= n,
            n == parts@.len(),
            pv == parts@.map_values(|p: Vec<u8>| p@),
            pv == split_on(book@, NEWLINE),
            parse_parts(pv.subrange(i as int, n as int)) == Some(suffix_entries),
            book_view(acc@) == suffix_entries,
        decreases i,
    {
        i -= 1;
        let part = &parts[i];
        let ghost tail = pv.subrange(i as int, n as int);
        proof {
            assert(tail.first() == pv[i as int]);
            assert(tail.drop_first() =~= pv.subrange(i + 1, n as int));
        }
        if part.len() == 0 {
            proof {
                assert(parse_parts(tail) == Some(suffix_entries));
            }
            continue;
        }
        let toks = split_bytes(part, SPACE);
        let ghost tokv = toks@.map_values(|p: Vec<u8>| p@);
        proof {
            assert(split_on(part@, SPACE).len() >= 1);
            assert(toks@.len() >= 1);
        }
        let h = parse_u64(&toks[0]);
        match h {
            Option::None => {
                proof {
                    assert(parse_line(pv[i as int]) is None);
                    assert(parse_parts(tail) is None);
                    assert(book_entries(book@) is None) by {
                        lemma_parse_parts_extends(pv, i as int);
                    }
                }
                return None;
            },
            Option::Some(hv) => {
                let mut moves: Vec<Vec<u8>> = Vec::new();
                let mut j: usize = 1;
                while j < toks.len()
                    invariant
                        1 <= j <= toks@.len(),
                        tokv == toks@.map_values(|p: Vec<u8>| p@),
                        moves@.map_values(|m: Vec<u8>| m@) =~= tokv.subrange(1, j as int),
                    decreases toks@.len() - j,
                {
                    let mut mv: Vec<u8> = Vec::new();
                    push_bytes(&mut mv, &toks[j]);
                    moves.push(mv);
                    proof {
                        assert(tokv.subrange(1, j + 1) =~= tokv.subrange(1, j as int).push(
                            tokv[j as int],
                        ));
                    }
                    j += 1;
                }
                let ghost e = (hv, tokv.subrange(1, tokv.len() as int));
                proof {
                    assert(tokv.drop_first() =~= tokv.subrange(1, tokv.len() as int));
                    assert(parse_line(pv[i as int]) == Some(e));
                    assert(parse_parts(tail) == Some(seq![e] + suffix_entries));
                }
                let line = BookLine { hash: hv, moves };
                acc.insert(0, line);
                proof {
                    assert(book_view(acc@) =~= seq![e] + suffix_entries);
                    suffix_entries = seq![e] + suffix_entries;
                }
            },
        }
    }
    proof {
        assert(pv.subrange(0, n as int) =~= pv);
    }
    Some(acc)
}

/// If some suffix of the parts fails to parse, the whole sequence fails.
proof fn lemma_parse_parts_extends(parts: Seq<Seq<u8>>, i: int)
    requires
        0 <= i <= parts.len(),
        parse_parts(parts.subrange(i, parts.len() as int)) is None,
    ensures
        parse_parts(parts) is None,
    decreases i,
{
    if i > 0 {
        let outer = parts.subrange(i - 1, parts.len() as int);
        assert(outer.drop_first() =~= parts.subrange(i, parts.len() as int));
        assert(parse_parts(outer) is None);
        lemma_parse_parts_extends(parts, i - 1);
    } else {
        assert(parts.subrange(0, parts.len() as int) =~= parts);
    }
}

/// The mapping a sequence of entries denotes: later lines win on a
/// repeated fingerprint, as repeated `insert`s would.
pub open spec fn map_of_entries(entries: Seq<(u64, Seq<Seq<u8>>)>) -> Map<u64, Seq<Seq<u8>>>
    decreases entries.len(),
{
    if entries.len() == 0 {
        Map::empty()
    } else {
        map_of_entries(entries.drop_last()).insert(entries.last().0, entries.last().1)
    }
}

pub open spec fn table_view(m: HashMap<u64, Vec<Vec<u8>>>) -> Map<u64, Seq<Seq<u8>>> {
    m@.map_values(|v: Vec<Vec<u8>>| v@.map_values(|mv: Vec<u8>| mv@))
}

/// Parse a book file into its lookup table.  Succeeds exactly when the
/// format specification accepts the file, and then the table is exactly
/// the mapping the file's lines denote.
pub fn prepare_book(book: &Vec<u8>) -> (r: Option<HashMap<u64, Vec<Vec<u8>>>>)
    ensures
        r is Some <==> book_entries(book@) is Some,
        r matches Some(m) ==> table_view(m) == map_of_entries(book_entries(book@).unwrap()),
{
    let lines = parse_book_lines(book);
    match lines {
        Option::None => None,
        Option::Some(mut lines) => {
            let ghost entries = book_view(lines@);
            let mut m: HashMap<u64, Vec<Vec<u8>>> = HashMap::new();
            let mut k: usize = 0;
            let n = lines.len();
            proof {
                assert(entries.subrange(0, 0) =~= Seq::<(u64, Seq<Seq<u8>>)>::empty());
                assert(table_view(m) =~= map_of_entries(entries.subrange(0, 0)));
            }
            while k < n
                invariant
                    0 <= k <= n,
                    n == lines@.len(),
                    entries == book_view(lines@),
                    table_view(m) == map_of_entries(entries.subrange(0, k as int)),
                decreases n - k,
            {
                let line = &lines[k];
                let mut moves: Vec<Vec<u8>> = Vec::new();
                let mut j: usize = 0;
                while j < line.moves.len()
                    invariant
                        0 <= j <= line.moves@.len(),
                        line == &lines[k as int],
                        moves@.map_values(|mv: Vec<u8>| mv@) =~= line.moves@.map_values(
                            |mv: Vec<u8>| mv@,
                        ).subrange(0, j as int),
                    decreases line.moves@.len() - j,
                {
                    let mut mv: Vec<u8> = Vec::new();
                    push_bytes(&mut mv, &line.moves[j]);
                    moves.push(mv);
                    proof {
                        let lv = line.moves@.map_values(|mv: Vec<u8>| mv@);
                        assert(lv.subrange(0, j + 1) =~= lv.subrange(0, j as int).push(
                            lv[j as int],
                        ));
                    }
                    j += 1;
                }
                let hash = line.hash;
                m.insert(hash, moves);
                proof {
                    let lv = line.moves@.map_values(|mv: Vec<u8>| mv@);
                    assert(lv.subrange(0, lv.len() as int) =~= lv);
                    assert(entries.subrange(0, k + 1).drop_last() =~= entries.subrange(
                        0,
                        k as int,
                    ));
                    assert(entries.subrange(0, k + 1).last() == entries[k as int]);
                    assert(entries[k as int] == line_view(lines@[k as int]));
                    assert(table_view(m) =~= map_of_entries(entries.subrange(0, k + 1)));
                }
                k += 1;
            }
            proof {
                assert(entries.subrange(0, n as int) =~= entries);
            }
            Some(m)
        },
    }
}

/// The book lookup policy on a fingerprint: the table matching the side to
/// move's favorable outcome first, the drawn-games table as a fallback,
/// and the losing side's table never.
pub open spec fn probe_spec(
    white_table: Map<u64, Seq<Seq<u8>>>,
    black_table: Map<u64, Seq<Seq<u8>>>,
    draw_table: Map<u64, Seq<Seq<u8>>>,
    white_to_move: bool,
    hash: u64,
) -> Option<Seq<Seq<u8>>> {
    let side = if white_to_move {
        white_table
    } else {
        black_table
    };
    if side.contains_key(hash) {
        Some(side[hash])
    } else if draw_table.contains_key(hash) {
        Some(draw_table[hash])
    } else {
        None
    }
}

/// Look a fingerprint up, side table first, then the drawn table.
pub fn probe_tables<'a>(
    white_book: &'a HashMap<u64, Vec<Vec<u8>>>,
    black_book: &'a HashMap<u64, Vec<Vec<u8>>>,
    draw_book: &'a HashMap<u64, Vec<Vec<u8>>>,
    white_to_move: bool,
    hash: u64,
) -> (r: Option<&'a Vec<Vec<u8>>>)
    ensures
        r is Some <==> probe_spec(
            table_view(*white_book),
            table_view(*black_book),
            table_view(*draw_book),
            white_to_move,
            hash,
        ) is Some,
        r matches Some(v) ==> Some(v@.map_values(|mv: Vec<u8>| mv@)) == probe_spec(
            table_view(*white_book),
            table_view(*black_book),
            table_view(*draw_book),
            white_to_move,
            hash,
        ),
{
    let side = if white_to_move {
        white_book
    } else {
        black_book
    };
    let hit = side.get(&hash);
    match hit {
        Option::Some(v) => Some(v),
        Option::None => {
            let fallback = draw_book.get(&hash);
            match fallback {
                Option::Some(v) => Some(v),
                Option::None => None,
            }
        },
    }
}

} // verus!
