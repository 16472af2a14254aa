//! Properties of the solver stated over replays of move sequences.

use vstd::prelude::*;
use crate::driver::{ida_loop_spec, ida_star_spec, initial_threshold, labels, result_matches, IdaResult, SearchFailure};
use crate::geometry::{blank, lemma_blank, manhattan, wf_board};
use crate::goal::is_goal_board;
use crate::moves::{move_valid, BoardMove};
use crate::node::{apply_move, lemma_successors, successors_spec, NodeView};
use crate::search::{heuristic_spec, lemma_search_outcome, scan_spec, search_spec, THRESHOLD_CEILING};

verus! {

/// The boards passed through when `moves` are played from `b0`, `b0` first.
pub open spec fn trace(side: int, b0: Seq<u32>, moves: Seq<BoardMove>) -> Seq<Seq<u32>>
    decreases moves.len(),
{
    if moves.len() == 0 {
        seq![b0]
    } else {
        let prev = trace(side, b0, moves.drop_last());
        prev.push(apply_move(side, prev.last(), moves.last()))
    }
}

/// Every move of `moves`, played from `b0`, keeps the blank on the board.
pub open spec fn legal(side: int, b0: Seq<u32>, moves: Seq<BoardMove>) -> bool
    decreases moves.len(),
{
    if moves.len() == 0 {
        true
    } else {
        &&& legal(side, b0, moves.drop_last())
        &&& move_valid(side, blank(trace(side, b0, moves.drop_last()).last()), moves.last())
    }
}

/// A goal node `n` found from `node` (reached at cost `g`) with result cost
/// `c`: its moves replay legally from `b0` without repeating a board and end
/// on its goal board, and `c` is its path cost plus estimate, within `t`.
pub open spec fn found_ok(
    side: int,
    goal: int,
    b0: Seq<u32>,
    node: NodeView,
    g: int,
    t: int,
    c: int,
    n: NodeView,
) -> bool {
    &&& legal(side, b0, n.moves)
    &&& trace(side, b0, n.moves).no_duplicates()
    &&& trace(side, b0, n.moves).last() == n.board
    &&& is_goal_board(goal, n.board)
    &&& wf_board(side, n.board)
    &&& c == g + n.moves.len() - node.moves.len() + heuristic_spec(side, goal, n.board)
    &&& c <= t
}

proof fn lemma_search_path(
    side: int,
    goal: int,
    b0: Seq<u32>,
    path: Seq<Seq<u32>>,
    node: NodeView,
    g: int,
    t: int,
)
    requires
        2 <= side <= 65535,
        wf_board(side, node.board),
        path == trace(side, b0, node.moves),
        node.board == path.last(),
        legal(side, b0, node.moves),
        path.no_duplicates(),
    ensures
        ({
            let r = search_spec(side, goal, path, node, g, t);
            r.node matches Some(n) ==> found_ok(side, goal, b0, node, g, t, r.cost, n)
        }),
    decreases t + 1 - g, 1int, 0int,
{
    let f = g + heuristic_spec(side, goal, node.board);
    if f <= t && !is_goal_board(goal, node.board) {
        lemma_successors(side, node, 4);
        lemma_scan_path(side, goal, b0, path, node, successors_spec(side, node), 0, g, t, u32::MAX as int);
    }
}

proof fn lemma_scan_path(
    side: int,
    goal: int,
    b0: Seq<u32>,
    path: Seq<Seq<u32>>,
    node: NodeView,
    succs: Seq<NodeView>,
    i: int,
    g: int,
    t: int,
    min: int,
)
    requires
        2 <= side <= 65535,
        wf_board(side, node.board),
        path == trace(side, b0, node.moves),
        node.board == path.last(),
        legal(side, b0, node.moves),
        path.no_duplicates(),
        succs == successors_spec(side, node),
        0 <= i,
        g <= t,
    ensures
        ({
            let r = scan_spec(side, goal, path, succs, i, g, t, min);
            r.node matches Some(n) ==> found_ok(side, goal, b0, node, g, t, r.cost, n)
        }),
    decreases t + 1 - g, 0int, succs.len() - i,
{
    if i < succs.len() {
        if path.contains(succs[i].board) {
            lemma_scan_path(side, goal, b0, path, node, succs, i + 1, g, t, min);
        } else {
            lemma_successors(side, node, 4);
            let s = succs[i];
            let m = s.moves.last();
            assert(s.moves.drop_last() == node.moves);
            let pushed = path.push(s.board);
            assert(trace(side, b0, s.moves) == pushed);
            assert(legal(side, b0, s.moves));
            assert(pushed.no_duplicates()) by {
                assert forall|a: int, b: int|
                    0 <= a < pushed.len() && 0 <= b < pushed.len() && a != b implies pushed[a]
                    != pushed[b] by {
                    if a == path.len() {
                        assert(pushed[b] == path[b]);
                    } else if b == path.len() {
                        assert(pushed[a] == path[a]);
                    }
                }
            }
            lemma_search_path(side, goal, b0, pushed, s, g + 1, t);
            let r = search_spec(side, goal, pushed, s, g + 1, t);
            if r.node is None {
                let m2 = if r.cost < min { r.cost } else { min };
                lemma_scan_path(side, goal, b0, path, node, succs, i + 1, g, t, m2);
            }
        }
    }
}

/// A goal found by a search from the root alone on the path is reached by a
/// legal replay without repeated boards, at its path cost plus estimate.
pub proof fn lemma_found_path(side: int, goal: int, root: NodeView, t: int)
    requires
        2 <= side <= 65535,
        wf_board(side, root.board),
        root.moves.len() == 0,
    ensures
        ({
            let r = search_spec(side, goal, seq![root.board], root, 0, t);
            r.node matches Some(n) ==> found_ok(side, goal, root.board, root, 0, t, r.cost, n)
        }),
{
    let path = seq![root.board];
    assert(trace(side, root.board, root.moves) == path);
    assert(path.no_duplicates());
    lemma_search_path(side, goal, root.board, path, root, 0, t);
}

proof fn lemma_loop_path(
    side: int,
    goal: int,
    root: NodeView,
    t: int,
    ceiling: int,
    moves: Seq<BoardMove>,
    th: int,
)
    requires
        2 <= side <= 65535,
        wf_board(side, root.board),
        root.moves.len() == 0,
        0 <= t <= THRESHOLD_CEILING,
        ceiling <= THRESHOLD_CEILING,
        ida_loop_spec(side, goal, root, t, ceiling) == Ok::<(Seq<BoardMove>, int), SearchFailure>((moves, th)),
    ensures
        legal(side, root.board, moves),
        trace(side, root.board, moves).no_duplicates(),
        is_goal_board(goal, trace(side, root.board, moves).last()),
        wf_board(side, trace(side, root.board, moves).last()),
        heuristic_spec(side, goal, trace(side, root.board, moves).last()) == 0,
        th == moves.len() + heuristic_spec(side, goal, trace(side, root.board, moves).last()),
    decreases THRESHOLD_CEILING + 1 - t,
{
    let path = seq![root.board];
    let r = search_spec(side, goal, path, root, 0, t);
    lemma_search_outcome(side, goal, path, root, 0, t);
    lemma_found_path(side, goal, root, t);
    match r.node {
        Some(n) => {
            lemma_blank(n.board);
            assert(blank(n.board) == goal);
            assert(manhattan(side, goal, goal) == 0);
        },
        None => {
            lemma_loop_path(side, goal, root, r.cost, ceiling, moves, th);
        },
    }
}

/// A solution returned by the driver, played move by move from the initial
/// board, never slides the blank off the board, never revisits a board, and
/// ends on a goal board. The threshold reported is the goal's path cost plus
/// estimate, which is its number of moves, the estimate at a goal being zero.
pub proof fn lemma_solution_replays(
    side: int,
    goal: int,
    root: NodeView,
    ceiling: int,
    moves: Seq<BoardMove>,
    threshold: int,
)
    requires
        2 <= side <= 65535,
        wf_board(side, root.board),
        root.moves.len() == 0,
        ceiling <= THRESHOLD_CEILING,
        ida_star_spec(side, goal, root, ceiling) == Ok::<(Seq<BoardMove>, int), SearchFailure>(
            (moves, threshold),
        ),
    ensures
        legal(side, root.board, moves),
        trace(side, root.board, moves).no_duplicates(),
        is_goal_board(goal, trace(side, root.board, moves).last()),
        wf_board(side, trace(side, root.board, moves).last()),
        heuristic_spec(side, goal, trace(side, root.board, moves).last()) == 0,
        threshold == moves.len() + heuristic_spec(side, goal, trace(side, root.board, moves).last()),
        threshold == moves.len(),
{
    crate::driver::lemma_has_successor(side, root);
    lemma_successors(side, root, 4);
    crate::driver::lemma_initial_threshold(side, root);
    lemma_loop_path(side, goal, root, initial_threshold(side, root), ceiling, moves, threshold);
}

/// The driver's outcome as labels and threshold, or the failure.
pub open spec fn outcome(r: Result<IdaResult, SearchFailure>) -> Result<
    (Seq<Seq<char>>, int),
    SearchFailure,
> {
    match r {
        Ok(res) => Ok((res.path@.map_values(|x: String| x@), res.threshold as int)),
        Err(e) => Err(e),
    }
}

/// Two runs of the driver on the same puzzle, root and ceiling give the
/// same labels and threshold, or the same failure.
pub proof fn lemma_driver_deterministic(
    side: int,
    goal: int,
    root: NodeView,
    ceiling: int,
    r1: Result<IdaResult, SearchFailure>,
    r2: Result<IdaResult, SearchFailure>,
)
    requires
        result_matches(r1, ida_star_spec(side, goal, root, ceiling)),
        result_matches(r2, ida_star_spec(side, goal, root, ceiling)),
    ensures
        outcome(r1) == outcome(r2),
{
}

} // verus!
