//! The search core: negamax with alpha-beta pruning over an explicit game tree.
//!
//! The engine expands the game to its search horizon into a `SearchTree`
//! (see `search`), then runs the verified pruning search over it.  The
//! specification side is `nmx`, a full-width (unpruned) negamax over the
//! same tree; `negamax` is proved to agree with it inside the (alpha, beta)
//! window, and `search_root` is proved to return exactly the full-width
//! score and the full-width choice of root move — the classic correctness
//! property of alpha-beta pruning.
//!
//! Scores are symmetric integers.  Checkmate of the side to move is the
//! `LOST_SCORE` sentinel; stalemate and insufficient material are 0; the
//! sentinels lie far outside the range any material evaluation can reach,
//! so they behave as infinities in comparisons.  A mate is not scored by
//! its distance: being mated now and being mated later score the same.

use vstd::prelude::*;
use crate::score::MAX_SIDE_SCORE;

verus! {

/// Sentinel score for a position in which the side to move is checkmated.
pub const LOST_SCORE: i32 = -1000000;

/// Sentinel score for a position in which the opponent is checkmated.
pub const WON_SCORE: i32 = 1000000;

/// What the rules of the game say about a node, before any searching.
#[derive(Clone, Copy, PartialEq, Eq, Structural, Debug)]
pub enum NodeStatus {
    Ongoing,
    Checkmate,
    Stalemate,
    InsufficientMaterial,
}

/// One node of the expanded game tree.  `eval` is the static evaluation of
/// the node's position (side-to-move relative); it is only consulted at the
/// search horizon.  `children` holds the successor positions in legal-move
/// enumeration order; it is only consulted above the horizon.
pub struct SearchTree {
    pub status: NodeStatus,
    pub eval: i32,
    pub children: Vec<SearchTree>,
}

pub open spec fn is_drawn(s: NodeStatus) -> bool {
    s == NodeStatus::Stalemate || s == NodeStatus::InsufficientMaterial
}

/// Well-formedness of a tree down to depth `d`: every evaluation that the
/// search can consult lies within the material range.
pub open spec fn wf_to(t: SearchTree, d: nat) -> bool
    decreases d,
{
    &&& -MAX_SIDE_SCORE <= t.eval <= MAX_SIDE_SCORE
    &&& (d > 0 ==> forall|i: int|
        0 <= i < t.children.len() ==> wf_to(#[trigger] t.children[i], (d - 1) as nat))
}

/// The value of child `i`, seen from the parent: the child's negamax value
/// at one less depth, negated.
pub open spec fn child_val(t: SearchTree, d: nat, i: int) -> int
    decreases d, 0int,
{
    if d > 0 && 0 <= i < t.children.len() {
        -nmx(t.children[i], (d - 1) as nat)
    } else {
        0
    }
}

/// The maximum of the first `n` child values, starting from `LOST_SCORE`
/// (a node with no legal moves keeps the lost sentinel).
pub open spec fn kids_max(t: SearchTree, d: nat, n: int) -> int
    decreases d, n,
{
    if n <= 0 {
        LOST_SCORE as int
    } else {
        vstd::math::max(kids_max(t, d, n - 1), child_val(t, d, n - 1))
    }
}

/// Full-width negamax: the unpruned value of a node at depth `d`.
/// Checkmate of the mover is the lost sentinel, drawn statuses are 0, the
/// horizon returns the static evaluation, and an inner node takes the
/// maximum over all children of their negated values.
pub open spec fn nmx(t: SearchTree, d: nat) -> int
    decreases d, t.children.len() + 1,
{
    if t.status == NodeStatus::Checkmate {
        LOST_SCORE as int
    } else if is_drawn(t.status) {
        0
    } else if d == 0 {
        t.eval as int
    } else {
        kids_max(t, d, t.children.len() as int)
    }
}

pub proof fn lemma_nmx_bounds(t: SearchTree, d: nat)
    requires
        wf_to(t, d),
    ensures
        LOST_SCORE <= nmx(t, d) <= WON_SCORE,
    decreases d, t.children.len() + 1,
{
    if t.status == NodeStatus::Checkmate || is_drawn(t.status) || d == 0 {
    } else {
        lemma_kids_max_bounds(t, d, t.children.len() as int);
    }
}

pub proof fn lemma_kids_max_bounds(t: SearchTree, d: nat, n: int)
    requires
        wf_to(t, d),
        d >= 1,
        0 <= n <= t.children.len(),
    ensures
        LOST_SCORE <= kids_max(t, d, n) <= WON_SCORE,
        forall|i: int| 0 <= i < n ==> LOST_SCORE <= #[trigger] child_val(t, d, i) <= WON_SCORE,
    decreases d, n,
{
    if n > 0 {
        lemma_kids_max_bounds(t, d, n - 1);
        lemma_nmx_bounds(t.children[n - 1], (d - 1) as nat);
        assert(child_val(t, d, n - 1) == -nmx(t.children[n - 1], (d - 1) as nat));
        assert(kids_max(t, d, n) == vstd::math::max(kids_max(t, d, n - 1), child_val(t, d, n - 1)));
    }
}

pub proof fn lemma_kids_max_mono(t: SearchTree, d: nat, n1: int, n2: int)
    requires
        0 <= n1 <= n2,
    ensures
        kids_max(t, d, n1) <= kids_max(t, d, n2),
    decreases n2,
{
    if n1 < n2 {
        lemma_kids_max_mono(t, d, n1, n2 - 1);
    }
}

pub proof fn lemma_kids_max_ge_child(t: SearchTree, d: nat, i: int, n: int)
    requires
        0 <= i < n,
    ensures
        kids_max(t, d, n) >= child_val(t, d, i),
{
    lemma_kids_max_mono(t, d, i + 1, n);
}

/// The same subtree valued from the opponent's perspective, written with
/// its own code path: the opponent wins where the mover is mated, sees
/// the negated static evaluation at the horizon, and at an inner node
/// gets the minimum over the mover's choices.
pub open spec fn opp_val(t: SearchTree, d: nat) -> int
    decreases d, t.children.len() + 1,
{
    if t.status == NodeStatus::Checkmate {
        WON_SCORE as int
    } else if is_drawn(t.status) {
        0
    } else if d == 0 {
        -t.eval
    } else {
        kids_min(t, d, t.children.len() as int)
    }
}

pub open spec fn opp_child_val(t: SearchTree, d: nat, i: int) -> int
    decreases d, 0int,
{
    if d > 0 && 0 <= i < t.children.len() {
        -opp_val(t.children[i], (d - 1) as nat)
    } else {
        0
    }
}

pub open spec fn kids_min(t: SearchTree, d: nat, n: int) -> int
    decreases d, n,
{
    if n <= 0 {
        WON_SCORE as int
    } else {
        vstd::math::min(kids_min(t, d, n - 1), opp_child_val(t, d, n - 1))
    }
}

proof fn lemma_kids_symmetry(t: SearchTree, d: nat, n: int)
    requires
        d >= 1,
        0 <= n <= t.children.len(),
    ensures
        kids_min(t, d, n) == -kids_max(t, d, n),
    decreases d, n,
{
    if n > 0 {
        lemma_kids_symmetry(t, d, n - 1);
        lemma_negamax_symmetry(t.children[n - 1], (d - 1) as nat);
        assert(opp_child_val(t, d, n - 1) == -opp_val(t.children[n - 1], (d - 1) as nat));
        assert(child_val(t, d, n - 1) == -nmx(t.children[n - 1], (d - 1) as nat));
        assert(opp_child_val(t, d, n - 1) == -child_val(t, d, n - 1));
        assert(kids_min(t, d, n) == vstd::math::min(
            kids_min(t, d, n - 1),
            opp_child_val(t, d, n - 1),
        ));
        assert(kids_max(t, d, n) == vstd::math::max(
            kids_max(t, d, n - 1),
            child_val(t, d, n - 1),
        ));
    }
}

/// Negamax symmetry: valuing a subtree for the opponent (swap sides,
/// negate scores) gives exactly the negation of the mover's negamax
/// value.  This is what justifies the negamax convention of recursing
/// with negated, swapped bounds and negating the child's result.
pub proof fn lemma_negamax_symmetry(t: SearchTree, d: nat)
    ensures
        opp_val(t, d) == -nmx(t, d),
    decreases d, t.children.len() + 1,
{
    if t.status == NodeStatus::Checkmate || is_drawn(t.status) || d == 0 {
    } else {
        lemma_kids_symmetry(t, d, t.children.len() as int);
    }
}

/// Negamax with alpha-beta pruning: track the best score seen, raise
/// `alpha` when it improves, and cut off as soon as `alpha >= beta` (the
/// opponent would never allow this line).
///
/// The contract is the classic pruning-correctness statement: within the
/// open window the result is exactly the full-width negamax value, and
/// outside it the result fails on the same side of the window.
pub fn negamax(t: &SearchTree, depth: u32, alpha0: i32, beta: i32) -> (r: i32)
    requires
        wf_to(*t, depth as nat),
        LOST_SCORE <= alpha0 < beta <= WON_SCORE,
    ensures
        LOST_SCORE <= r <= WON_SCORE,
        nmx(*t, depth as nat) <= alpha0 ==> r <= alpha0,
        nmx(*t, depth as nat) >= beta ==> r >= beta,
        alpha0 < nmx(*t, depth as nat) < beta ==> r == nmx(*t, depth as nat),
    decreases depth,
{
    let ghost d = depth as nat;
    if t.status == NodeStatus::Checkmate {
        return LOST_SCORE;
    }
    if t.status == NodeStatus::Stalemate || t.status == NodeStatus::InsufficientMaterial {
        return 0;
    }
    if depth == 0 {
        return t.eval;
    }
    let mut alpha = alpha0;
    let mut best: i32 = LOST_SCORE;
    let n = t.children.len();
    let mut i: usize = 0;
    while i < n
        invariant
            wf_to(*t, d),
            d == depth as nat,
            t.status == NodeStatus::Ongoing,
            depth >= 1,
            n == t.children.len(),
            0 <= i <= n,
            LOST_SCORE <= alpha0 < beta <= WON_SCORE,
            LOST_SCORE <= best <= WON_SCORE,
            alpha == vstd::math::max(alpha0 as int, best as int),
            alpha < beta,
            best <= vstd::math::max(alpha0 as int, kids_max(*t, d, i as int)),
            kids_max(*t, d, i as int) < beta,
            alpha0 < kids_max(*t, d, i as int) ==> best == kids_max(*t, d, i as int),
        decreases n - i,
    {
        let child = &t.children[i];
        let s = negamax(child, depth - 1, -beta, -alpha);
        let sc = -s;
        let ghost cv = child_val(*t, d, i as int);
        proof {
            lemma_nmx_bounds(*child, (d - 1) as nat);
            assert(cv == -nmx(*child, (d - 1) as nat));
            // Translate the child's window facts to the parent's view.
            assert(cv >= beta ==> sc >= beta);
            assert(cv <= alpha ==> sc <= alpha);
            assert(alpha < cv < beta ==> sc == cv);
            lemma_kids_max_bounds(*t, d, i as int + 1);
        }
        if sc > best {
            best = sc;
        }
        if best > alpha {
            alpha = best;
        }
        if alpha >= beta {
            proof {
                // A cutoff means this child already refutes the window:
                // its true value is at least beta, so the node's is too.
                assert(sc >= beta);
                assert(cv >= beta);
                lemma_kids_max_ge_child(*t, d, i as int, n as int);
                assert(nmx(*t, d) == kids_max(*t, d, n as int));
            }
            return alpha;
        }
        proof {
            assert(kids_max(*t, d, i as int + 1) == vstd::math::max(
                kids_max(*t, d, i as int),
                cv,
            ));
            assert(sc < beta);
            assert(cv < beta);
            if alpha0 < kids_max(*t, d, i as int + 1) {
                if cv > kids_max(*t, d, i as int) {
                    assert(sc == cv);
                } else {
                }
            }
        }
        i += 1;
    }
    proof {
        assert(nmx(*t, d) == kids_max(*t, d, n as int));
    }
    best
}

/// The root move recorded by a full-width negamax search over the first `n`
/// children: the index is updated each time a child strictly improves on
/// everything seen before it, so the recorded index is the first child that
/// attains the maximum — or `None` when no child ever rose above the lost
/// sentinel (no legal moves, or every reply loses).
pub open spec fn root_choice(t: SearchTree, d: nat, n: int) -> Option<int>
    decreases n,
{
    if n <= 0 {
        None
    } else if child_val(t, d, n - 1) > kids_max(t, d, n - 1) {
        Some(n - 1)
    } else {
        root_choice(t, d, n - 1)
    }
}

/// Relates an executable index to the specification's choice.
pub open spec fn idx_matches(o: Option<usize>, s: Option<int>) -> bool {
    match o {
        Option::None => s is None,
        Option::Some(i) => s == Option::Some(i as int),
    }
}

/// What the recorded root move means: when a move is recorded, it is the
/// first child attaining the maximum value — every earlier child is
/// strictly worse, and no child is better.  When none is recorded, no
/// child ever rose above the lost sentinel.
pub proof fn lemma_root_choice_is_first_max(t: SearchTree, d: nat, n: int)
    requires
        0 <= n <= t.children.len(),
    ensures
        root_choice(t, d, n) matches Some(i) ==> 0 <= i < n && child_val(t, d, i) == kids_max(
            t,
            d,
            n,
        ) && (forall|j: int| 0 <= j < i ==> child_val(t, d, j) < child_val(t, d, i)),
        root_choice(t, d, n) is None ==> forall|j: int|
            0 <= j < n ==> child_val(t, d, j) <= LOST_SCORE,
    decreases n,
{
    if n > 0 {
        lemma_root_choice_is_first_max(t, d, n - 1);
        lemma_kids_max_mono(t, d, 0, n - 1);
        if child_val(t, d, n - 1) > kids_max(t, d, n - 1) {
            assert forall|j: int| 0 <= j < n - 1 implies #[trigger] child_val(t, d, j) < child_val(
                t,
                d,
                n - 1,
            ) by {
                lemma_kids_max_ge_child(t, d, j, n - 1);
            }
        } else {
            match root_choice(t, d, n - 1) {
                Option::Some(i) => {
                    assert(child_val(t, d, i) == kids_max(t, d, n - 1));
                    assert(kids_max(t, d, n) == kids_max(t, d, n - 1));
                },
                Option::None => {
                    assert(kids_max(t, d, n - 1) <= LOST_SCORE) by {
                        lemma_kids_max_le_all(t, d, n - 1);
                    }
                },
            }
        }
    }
}

/// The maximum over a prefix is bounded by any bound on all its members.
proof fn lemma_kids_max_le_all(t: SearchTree, d: nat, n: int)
    requires
        0 <= n,
        forall|j: int| 0 <= j < n ==> #[trigger] child_val(t, d, j) <= LOST_SCORE,
    ensures
        kids_max(t, d, n) <= LOST_SCORE,
    decreases n,
{
    if n > 0 {
        lemma_kids_max_le_all(t, d, n - 1);
        assert(child_val(t, d, n - 1) <= LOST_SCORE);
    }
}

/// Once some prefix of the children already reaches the won sentinel,
/// later children can neither raise the maximum nor change the recorded
/// root move: a root cutoff returns the final answer.
proof fn lemma_root_frozen(t: SearchTree, d: nat, i: int, n: int)
    requires
        wf_to(t, d),
        d >= 1,
        0 <= i <= n <= t.children.len(),
        kids_max(t, d, i) == WON_SCORE,
    ensures
        kids_max(t, d, n) == WON_SCORE,
        root_choice(t, d, n) == root_choice(t, d, i),
    decreases n,
{
    if n > i {
        lemma_root_frozen(t, d, i, n - 1);
        lemma_kids_max_bounds(t, d, n);
    }
}

/// The root of the search: alpha-beta over the root's children, recording
/// which child the search would play.  The contract is the alpha-beta
/// equivalence property: with the full window at the root, the score and
/// the recorded move are exactly those of an unpruned full-width negamax.
pub fn search_root(t: &SearchTree, depth: u32) -> (res: (i32, Option<usize>))
    requires
        wf_to(*t, depth as nat),
    ensures
        res.0 == nmx(*t, depth as nat),
        t.status == NodeStatus::Ongoing && depth >= 1 ==> idx_matches(
            res.1,
            root_choice(*t, depth as nat, t.children.len() as int),
        ),
        !(t.status == NodeStatus::Ongoing && depth >= 1) ==> res.1 is None,
        res.1 matches Some(i) ==> i < t.children.len(),
{
    let ghost d = depth as nat;
    if t.status == NodeStatus::Checkmate {
        return (LOST_SCORE, None);
    }
    if t.status == NodeStatus::Stalemate || t.status == NodeStatus::InsufficientMaterial {
        return (0, None);
    }
    if depth == 0 {
        return (t.eval, None);
    }
    let mut best: i32 = LOST_SCORE;
    let mut best_idx: Option<usize> = None;
    let n = t.children.len();
    let mut i: usize = 0;
    while i < n
        invariant
            wf_to(*t, d),
            d == depth as nat,
            t.status == NodeStatus::Ongoing,
            depth >= 1,
            n == t.children.len(),
            0 <= i <= n,
            best == kids_max(*t, d, i as int),
            LOST_SCORE <= best < WON_SCORE,
            idx_matches(best_idx, root_choice(*t, d, i as int)),
            best_idx matches Some(j) ==> j < n,
        decreases n - i,
    {
        let child = &t.children[i];
        let s = negamax(child, depth - 1, LOST_SCORE, -best);
        let sc = -s;
        let ghost cv = child_val(*t, d, i as int);
        proof {
            lemma_nmx_bounds(*child, (d - 1) as nat);
            lemma_kids_max_bounds(*t, d, i as int + 1);
            assert(cv == -nmx(*child, (d - 1) as nat));
            assert(cv <= best ==> sc <= best);
            assert(best < cv < WON_SCORE ==> sc == cv);
            assert(cv >= WON_SCORE ==> cv == WON_SCORE && sc >= WON_SCORE);
            assert(kids_max(*t, d, i as int + 1) == vstd::math::max(
                kids_max(*t, d, i as int),
                cv,
            ));
        }
        if sc > best {
            proof {
                assert(cv > best);
                assert(sc == cv);
            }
            best = sc;
            best_idx = Some(i);
            if best >= WON_SCORE {
                proof {
                    lemma_root_frozen(*t, d, i as int + 1, n as int);
                }
                return (best, best_idx);
            }
        } else {
            proof {
                assert(cv <= best);
            }
        }
        i += 1;
    }
    (best, best_idx)
}

} // verus!
