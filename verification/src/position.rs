//! The chess-rules boundary: trusted declarations and wrappers over the
//! `shakmaty` crate (move generation, legality, position status, Zobrist
//! hashing, notation), over `rand` (book move selection) and over the
//! standard library's mpsc receiver (the cancellation channel).
//!
//! Everything here is trusted: Verus believes the stated contracts and
//! does not look at the bodies.  The contracts deliberately state only
//! what the callers' proofs need; a position is opaque to the verifier,
//! so nothing is claimed about which moves are legal or what a hash is —
//! the verified logic takes those values as given and is proved for every
//! value they could take.

use vstd::prelude::*;
use crate::score::SideMaterial;
use rand::Rng;
use shakmaty::Position;
use shakmaty::zobrist::{Zobrist64, ZobristHash};

verus! {

#[verifier::external_type_specification]
#[verifier::external_body]
pub struct ExChess(shakmaty::Chess);

#[verifier::external_type_specification]
#[verifier::external_body]
pub struct ExMove(shakmaty::Move);

#[verifier::external_type_specification]
#[verifier::external_body]
#[verifier::reject_recursive_types(T)]
pub struct ExReceiver<T>(std::sync::mpsc::Receiver<T>);

/// Relies on shakmaty::Chess::default: the standard starting position.
#[verifier::external_body]
pub fn starting_position() -> shakmaty::Chess {
    shakmaty::Chess::default()
}

/// Relies on the derived Clone of shakmaty::Move: an identical move.
#[verifier::external_body]
pub fn clone_move(m: &shakmaty::Move) -> (r: shakmaty::Move)
    ensures
        r == *m,
{
    m.clone()
}

/// Relies on shakmaty::Position::is_checkmate.
#[verifier::external_body]
pub fn is_checkmate(p: &shakmaty::Chess) -> bool {
    p.is_checkmate()
}

/// Relies on shakmaty::Position::is_stalemate.
#[verifier::external_body]
pub fn is_stalemate(p: &shakmaty::Chess) -> bool {
    p.is_stalemate()
}

/// Relies on shakmaty::Position::is_insufficient_material.
#[verifier::external_body]
pub fn is_insufficient_material(p: &shakmaty::Chess) -> bool {
    p.is_insufficient_material()
}

/// Relies on shakmaty::Position::turn and Color::is_white.
#[verifier::external_body]
pub fn turn_is_white(p: &shakmaty::Chess) -> bool {
    p.turn().is_white()
}

/// Relies on shakmaty::Position::legal_moves: the exhaustive,
/// duplicate-free list of legal moves, in generator order.
#[verifier::external_body]
pub fn legal_moves_vec(p: &shakmaty::Chess) -> Vec<shakmaty::Move> {
    p.legal_moves().into_iter().collect()
}

/// Relies on shakmaty::Position::play: the successor position, or `None`
/// if the move is not legal here.
#[verifier::external_body]
pub fn play_move(p: &shakmaty::Chess, m: &shakmaty::Move) -> Option<shakmaty::Chess> {
    p.clone().play(m).ok()
}

/// Relies on shakmaty::zobrist::ZobristHash::zobrist_hash: a 64-bit
/// fingerprint of the full position, including side to move and
/// castling/en-passant state.
#[verifier::external_body]
pub fn board_fingerprint(p: &shakmaty::Chess) -> u64 {
    let z: Zobrist64 = p.zobrist_hash(shakmaty::EnPassantMode::Legal);
    z.0
}

/// Relies on shakmaty::Board::material_side: the piece counts of one
/// side, each a `u8`.
#[verifier::external_body]
pub fn side_material(p: &shakmaty::Chess, white: bool) -> SideMaterial {
    let color = if white {
        shakmaty::Color::White
    } else {
        shakmaty::Color::Black
    };
    let counts = p.board().material_side(color);
    SideMaterial {
        pawns: counts.pawn,
        knights: counts.knight,
        bishops: counts.bishop,
        rooks: counts.rook,
        queens: counts.queen,
    }
}

/// Relies on shakmaty::uci::UciMove::from_ascii and UciMove::to_move:
/// the legal move denoted by a long-algebraic string, if any.
#[verifier::external_body]
pub fn uci_to_move(bytes: &Vec<u8>, p: &shakmaty::Chess) -> Option<shakmaty::Move> {
    let uci = shakmaty::uci::UciMove::from_ascii(bytes.as_slice()).ok()?;
    uci.to_move(p).ok()
}

/// Relies on shakmaty::san::San::from_ascii and San::to_move: the legal
/// move denoted by a standard-algebraic string, if any.
#[verifier::external_body]
pub fn san_to_move(bytes: &Vec<u8>, p: &shakmaty::Chess) -> Option<shakmaty::Move> {
    let san = shakmaty::san::San::from_ascii(bytes.as_slice()).ok()?;
    san.to_move(p).ok()
}

/// Relies on shakmaty::Move::to_uci: the long-algebraic notation of a
/// move, as bytes.
#[verifier::external_body]
pub fn move_uci_bytes(m: &shakmaty::Move) -> Vec<u8> {
    format!("{}", m.to_uci(shakmaty::CastlingMode::Standard)).into_bytes()
}

/// Relies on shakmaty::fen::Fen::from_ascii and Fen::into_position: the
/// position a FEN string describes, if it is well-formed and legal.
#[verifier::external_body]
pub fn position_from_fen(bytes: &Vec<u8>) -> Option<shakmaty::Chess> {
    let fen = shakmaty::fen::Fen::from_ascii(bytes.as_slice()).ok()?;
    fen.into_position(shakmaty::CastlingMode::Standard).ok()
}

/// Relies on std::sync::mpsc::Receiver::try_recv: whether a message was
/// waiting.  Nothing is promised of the outcome; callers must be correct
/// whichever way it goes.
#[verifier::external_body]
pub fn try_recv_stop(rx: &std::sync::mpsc::Receiver<bool>) -> bool {
    rx.try_recv().is_ok()
}

/// Relies on rand::Rng::gen_range over rand::thread_rng: a uniformly
/// random index below `n`.  Only the bound is promised.
#[verifier::external_body]
pub fn random_below(n: usize) -> (r: usize)
    requires
        n >= 1,
    ensures
        r < n,
{
    rand::thread_rng().gen_range(0..n)
}

} // verus!
