//! Expanding positions into search trees, and the fixed-depth strategy.
//!
//! `build_root` expands the game from a position down to the search
//! horizon, polling the cancellation channel at every node; the verified
//! alpha-beta core in `tree` then searches the expansion.  Cancellation is
//! cooperative: a `None` from the builder means the round was interrupted
//! and its partial work must be discarded (see `engine`).

use vstd::prelude::*;
use crate::position::{
    is_checkmate,
    is_insufficient_material,
    is_stalemate,
    legal_moves_vec,
    play_move,
    side_material,
    try_recv_stop,
    turn_is_white,
};
use crate::score::{calculate_score, MAX_SIDE_SCORE};
use crate::tree::{search_root, wf_to, NodeStatus, SearchTree};

verus! {

/// The fixed search horizon of the plain (uncancellable) strategy.
pub const DEPTH: u32 = 4;

/// Static evaluation of a position: material only, from the side to
/// move's perspective.
pub fn evaluate(p: &shakmaty::Chess) -> (r: i32)
    ensures
        -MAX_SIDE_SCORE <= r <= MAX_SIDE_SCORE,
{
    let white = turn_is_white(p);
    let player = side_material(p, white);
    let enemy = side_material(p, !white);
    calculate_score(&player, &enemy)
}

/// The rules status of a position, read through the trusted wrappers.
pub fn position_status(p: &shakmaty::Chess) -> NodeStatus {
    if is_checkmate(p) {
        NodeStatus::Checkmate
    } else if is_stalemate(p) {
        NodeStatus::Stalemate
    } else if is_insufficient_material(p) {
        NodeStatus::InsufficientMaterial
    } else {
        NodeStatus::Ongoing
    }
}

/// Expand one node of the game tree to the given depth.  Terminal nodes
/// and horizon nodes become leaves; the evaluator is consulted only at
/// horizon leaves.  Polls the cancellation channel at every node; `None`
/// means the expansion was abandoned (a cancelled round).  A legal move
/// the rules library refuses to play also abandons the round rather than
/// searching a wrong tree.
pub fn build_node(
    stop: Option<&std::sync::mpsc::Receiver<bool>>,
    p: &shakmaty::Chess,
    depth: u32,
) -> (r: Option<SearchTree>)
    ensures
        r matches Some(t) ==> wf_to(t, depth as nat),
    decreases depth,
{
    match stop {
        Option::Some(rx) => {
            if try_recv_stop(rx) {
                return None;
            }
        },
        Option::None => {},
    }
    let status = position_status(p);
    if depth == 0 || !(status == NodeStatus::Ongoing) {
        let eval: i32 = if depth == 0 && status == NodeStatus::Ongoing {
            evaluate(p)
        } else {
            0
        };
        let leaf = SearchTree { status, eval, children: Vec::new() };
        return Some(leaf);
    }
    let moves = legal_moves_vec(p);
    let mut children: Vec<SearchTree> = Vec::new();
    let mut i: usize = 0;
    while i < moves.len()
        invariant
            depth >= 1,
            0 <= i <= moves@.len(),
            forall|k: int|
                0 <= k < children@.len() ==> wf_to(
                    #[trigger] children@[k],
                    (depth - 1) as nat,
                ),
        decreases moves@.len() - i,
    {
        let next = play_move(p, &moves[i]);
        match next {
            Option::None => {
                return None;
            },
            Option::Some(q) => {
                let sub = build_node(stop, &q, depth - 1);
                match sub {
                    Option::None => {
                        return None;
                    },
                    Option::Some(t) => {
                        children.push(t);
                    },
                }
            },
        }
        i += 1;
    }
    let node = SearchTree { status: NodeStatus::Ongoing, eval: 0, children };
    proof {
        assert(wf_to(node, depth as nat));
    }
    Some(node)
}

/// Expand the root: the legal move list and, index-aligned with it, the
/// subtree below each move.
pub fn build_root(
    stop: Option<&std::sync::mpsc::Receiver<bool>>,
    p: &shakmaty::Chess,
    depth: u32,
) -> (r: Option<(Vec<shakmaty::Move>, SearchTree)>)
    requires
        depth >= 1,
    ensures
        r matches Some(pair) ==> wf_to(pair.1, depth as nat) && pair.1.children.len()
            == pair.0.len(),
{
    match stop {
        Option::Some(rx) => {
            if try_recv_stop(rx) {
                return None;
            }
        },
        Option::None => {},
    }
    let status = position_status(p);
    if !(status == NodeStatus::Ongoing) {
        let leaf = SearchTree { status, eval: 0, children: Vec::new() };
        return Some((Vec::new(), leaf));
    }
    let moves = legal_moves_vec(p);
    let mut children: Vec<SearchTree> = Vec::new();
    let mut i: usize = 0;
    while i < moves.len()
        invariant
            depth >= 1,
            0 <= i <= moves@.len(),
            children@.len() == i,
            forall|k: int|
                0 <= k < children@.len() ==> wf_to(
                    #[trigger] children@[k],
                    (depth - 1) as nat,
                ),
        decreases moves@.len() - i,
    {
        let next = play_move(p, &moves[i]);
        match next {
            Option::None => {
                return None;
            },
            Option::Some(q) => {
                let sub = build_node(stop, &q, depth - 1);
                match sub {
                    Option::None => {
                        return None;
                    },
                    Option::Some(t) => {
                        children.push(t);
                    },
                }
            },
        }
        i += 1;
    }
    let node = SearchTree { status: NodeStatus::Ongoing, eval: 0, children };
    proof {
        assert(wf_to(node, depth as nat));
    }
    Some((moves, node))
}

/// The plain strategy: a single search of the current position to the
/// fixed horizon, remembering the chosen move.
pub struct Search {
    pub board: shakmaty::Chess,
    pub best_move: Option<shakmaty::Move>,
}

impl Default for Search {
    /// A strategy for the standard starting position.
    fn default() -> (r: Search)
        ensures
            r.best_move is None,
    {
        Search { board: crate::position::starting_position(), best_move: None }
    }
}

impl Search {
    pub fn new(board: shakmaty::Chess) -> (r: Search)
        ensures
            r.board == board,
            r.best_move is None,
    {
        Search { board, best_move: None }
    }

    /// Search the position to the fixed depth and return the chosen move:
    /// the same move an unpruned full-width negamax would pick.  `None`
    /// when the position is terminal, when every line loses, or when the
    /// rules library refused a move it generated.
    pub fn search(&mut self) -> (r: Option<shakmaty::Move>)
        ensures
            final(self).board == old(self).board,
            r == final(self).best_move,
    {
        let built = build_root(None, &self.board, DEPTH);
        match built {
            Option::None => {
                self.best_move = None;
            },
            Option::Some((moves, node)) => {
                let res = search_root(&node, DEPTH);
                match res.1 {
                    Option::Some(i) => {
                        self.best_move = Some(crate::position::clone_move(&moves[i]));
                    },
                    Option::None => {
                        self.best_move = None;
                    },
                }
            },
        }
        match &self.best_move {
            Option::Some(m) => Some(crate::position::clone_move(m)),
            Option::None => None,
        }
    }
}

} // verus!
