use rustyfish::position::{move_uci_bytes, position_from_fen};
use rustyfish::score::{calculate_score, score, SideMaterial};
use rustyfish::search::{build_root, evaluate, Search};
use rustyfish::tree::{negamax, search_root, NodeStatus, SearchTree, LOST_SCORE, WON_SCORE};

fn leaf(eval: i32) -> SearchTree {
    SearchTree { status: NodeStatus::Ongoing, eval, children: Vec::new() }
}

fn node(children: Vec<SearchTree>) -> SearchTree {
    SearchTree { status: NodeStatus::Ongoing, eval: 0, children }
}

#[test]
fn score_of_material_is_exact() {
    let side = SideMaterial { pawns: 8, knights: 2, bishops: 2, rooks: 2, queens: 1 };
    assert_eq!(score(&side), 8 * 100 + 2 * 320 + 2 * 330 + 2 * 500 + 900);
}

#[test]
fn starting_material_is_balanced() {
    let side = SideMaterial { pawns: 8, knights: 2, bishops: 2, rooks: 2, queens: 1 };
    assert_eq!(calculate_score(&side, &side), 0);
}

#[test]
fn evaluation_is_determined_by_material_not_placement() {
    // The same material (a white rook up), rooks on different squares.
    let a = position_from_fen(&b"8/8/4k3/8/8/4K3/8/R7 w - - 0 1".to_vec()).unwrap();
    let b = position_from_fen(&b"R7/8/4k3/8/8/4K3/8/8 w - - 0 1".to_vec()).unwrap();
    assert_eq!(evaluate(&a), evaluate(&b));
    assert_eq!(evaluate(&a), 500);
}

#[test]
fn starting_position_evaluates_to_zero() {
    let p = position_from_fen(
        &b"rnbqkbnr/pppppppp/8/8/8/8/PPPPPPPP/RNBQKBNR w KQkq - 0 1".to_vec(),
    )
    .unwrap();
    assert_eq!(evaluate(&p), 0);
}

#[test]
fn negamax_takes_the_best_negated_child() {
    // Child evaluations are from the child mover's view, so the root
    // score is the maximum of their negations.
    let t = node(vec![leaf(3), leaf(-5), leaf(2)]);
    let (score, idx) = search_root(&t, 1);
    assert_eq!(score, 5);
    assert_eq!(idx, Some(1));
}

#[test]
fn negamax_with_narrow_window_stays_on_the_right_side() {
    let t = node(vec![leaf(3), leaf(-5), leaf(2)]);
    // True value is 5; with a window below it the result fails high.
    let r = negamax(&t, 1, -10, 4);
    assert!(r >= 4);
    // With the full window the result is exact.
    let r = negamax(&t, 1, LOST_SCORE, WON_SCORE);
    assert_eq!(r, 5);
}

#[test]
fn checkmate_child_scores_as_won() {
    let mated = SearchTree { status: NodeStatus::Checkmate, eval: 0, children: Vec::new() };
    let t = node(vec![leaf(100), mated]);
    let (score, idx) = search_root(&t, 1);
    assert_eq!(score, WON_SCORE);
    assert_eq!(idx, Some(1));
}

#[test]
fn stalemate_scores_zero() {
    let t = SearchTree { status: NodeStatus::Stalemate, eval: 77, children: Vec::new() };
    let (score, idx) = search_root(&t, 3);
    assert_eq!(score, 0);
    assert_eq!(idx, None);
}

#[test]
fn mated_root_scores_as_lost() {
    let t = SearchTree { status: NodeStatus::Checkmate, eval: 0, children: Vec::new() };
    let (score, idx) = search_root(&t, 2);
    assert_eq!(score, LOST_SCORE);
    assert_eq!(idx, None);
}

#[test]
fn deeper_tree_alternates_perspectives() {
    // Two root moves; after the first, the opponent can reach +4 (for
    // them); after the second, only +1.  The root should pick the second.
    let t = node(vec![
        node(vec![leaf(-4), leaf(-1)]),
        node(vec![leaf(-1), leaf(3)]),
    ]);
    let (score, idx) = search_root(&t, 2);
    assert_eq!(score, -1);
    assert_eq!(idx, Some(1));
}

#[test]
fn back_rank_mate_is_found_with_won_sentinel() {
    // White mates in one with Ra8.
    let p = position_from_fen(&b"6k1/5ppp/8/8/8/8/8/R6K w - - 0 1".to_vec()).unwrap();
    let (moves, tree) = build_root(None, &p, 1).unwrap();
    let (score, idx) = search_root(&tree, 1);
    assert_eq!(score, WON_SCORE);
    let chosen = idx.unwrap();
    assert_eq!(move_uci_bytes(&moves[chosen]), b"a1a8".to_vec());
}

// A plain, unpruned reference negamax over the same tree type, for
// comparing the pruning search against.
fn plain_negamax(t: &SearchTree, depth: u32) -> i32 {
    match t.status {
        NodeStatus::Checkmate => return LOST_SCORE,
        NodeStatus::Stalemate | NodeStatus::InsufficientMaterial => return 0,
        NodeStatus::Ongoing => {}
    }
    if depth == 0 {
        return t.eval;
    }
    let mut best = LOST_SCORE;
    for c in &t.children {
        let s = -plain_negamax(c, depth - 1);
        if s > best {
            best = s;
        }
    }
    best
}

fn plain_root(t: &SearchTree, depth: u32) -> (i32, Option<usize>) {
    match t.status {
        NodeStatus::Checkmate => return (LOST_SCORE, None),
        NodeStatus::Stalemate | NodeStatus::InsufficientMaterial => return (0, None),
        NodeStatus::Ongoing => {}
    }
    if depth == 0 {
        return (t.eval, None);
    }
    let mut best = LOST_SCORE;
    let mut idx = None;
    for (i, c) in t.children.iter().enumerate() {
        let s = -plain_negamax(c, depth - 1);
        if s > best {
            best = s;
            idx = Some(i);
        }
    }
    (best, idx)
}

#[test]
fn pruned_search_equals_full_width_on_real_positions() {
    let fens: [&[u8]; 3] = [
        b"6k1/5ppp/8/8/8/8/8/R6K w - - 0 1",
        b"k7/8/8/1R6/2R5/8/8/7K w - - 0 1",
        b"8/8/4k3/3p4/3P4/4K3/8/8 b - - 0 1",
    ];
    for fen in fens {
        let p = position_from_fen(&fen.to_vec()).unwrap();
        for depth in 1..=3u32 {
            let (_, tree) = build_root(None, &p, depth).unwrap();
            let pruned = search_root(&tree, depth);
            let full = plain_root(&tree, depth);
            assert_eq!(pruned.0, full.0, "score differs at depth {}", depth);
            assert_eq!(pruned.1, full.1, "move differs at depth {}", depth);
        }
    }
}

#[test]
fn fixed_depth_strategy_finds_the_mate() {
    let p = position_from_fen(&b"6k1/5ppp/8/8/8/8/8/R6K w - - 0 1".to_vec()).unwrap();
    let mut s = Search::new(p);
    let m = s.search().expect("a move should be found");
    assert_eq!(move_uci_bytes(&m), b"a1a8".to_vec());
}
