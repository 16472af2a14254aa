//! The iterative-deepening driver: raises the threshold until a bounded
//! search reaches the goal.

use vstd::prelude::*;
use crate::geometry::{blank, lemma_blank, wf_board};
use crate::goal::is_goal_board;
use crate::moves::{board_move_to_string, move_label, move_valid, BoardMove};
use crate::node::{
    boards_of, get_successors, is_node_in_path, lemma_successors, successors_spec,
    successors_upto, NodeView, PuzzleNode,
};
use crate::search::{lemma_search_outcome, search, search_spec, Puzzle, THRESHOLD_CEILING};

verus! {

/// Why the driver stopped without a solution.
#[derive(Clone, Copy, Debug, PartialEq, Eq, Structural)]
pub enum SearchFailure {
    /// A search returned a node that is no goal.
    NoSolution,
    /// The next threshold would pass the ceiling.
    DidNotConverge,
}

/// A solution: the move labels from the root to the goal, and the goal's
/// bound: its path cost plus estimate, within the threshold that found it.
#[derive(Debug)]
pub struct IdaResult {
    pub path: Vec<String>,
    pub threshold: u32,
}

/// Smallest cost among the first `k` nodes of `s`.
pub open spec fn min_cost_upto(s: Seq<NodeView>, k: int) -> int
    decreases k,
{
    if k <= 1 {
        s[0].cost as int
    } else {
        let m = min_cost_upto(s, k - 1);
        if (s[k - 1].cost as int) < m { s[k - 1].cost as int } else { m }
    }
}

/// The first threshold: the smallest cost of a slide from the root.
pub open spec fn initial_threshold(side: int, root: NodeView) -> int {
    let s = successors_spec(side, root);
    min_cost_upto(s, s.len() as int)
}

/// Bounded searches from the root with threshold `t` and those after it:
/// each failed search hands on the bound it reports, until a goal is found
/// (its moves and bound are the answer) or the bound passes `ceiling`.
pub open spec fn ida_loop_spec(side: int, goal: int, root: NodeView, t: int, ceiling: int) -> Result<
    (Seq<BoardMove>, int),
    SearchFailure,
>
    decreases ceiling + 1 - t when 0 <= t < u32::MAX via ida_loop_decreases
{
    let r = search_spec(side, goal, seq![root.board], root, 0, t);
    match r.node {
        // a returned node that is no goal stays on the path: no solution
        Some(n) => if is_goal_board(goal, n.board) {
            Ok((n.moves, r.cost))
        } else {
            Err(SearchFailure::NoSolution)
        },
        None => if r.cost > ceiling {
            Err(SearchFailure::DidNotConverge)
        } else {
            ida_loop_spec(side, goal, root, r.cost, ceiling)
        },
    }
}

#[via_fn]
proof fn ida_loop_decreases(side: int, goal: int, root: NodeView, t: int, ceiling: int) {
    if 0 <= t < u32::MAX {
        lemma_search_outcome(side, goal, seq![root.board], root, 0, t);
    }
}

/// What IDA* returns from `root`: the moves and bound of the first goal
/// found, or why none was, with thresholds up to `ceiling`.
pub open spec fn ida_star_spec(side: int, goal: int, root: NodeView, ceiling: int) -> Result<
    (Seq<BoardMove>, int),
    SearchFailure,
> {
    ida_loop_spec(side, goal, root, initial_threshold(side, root), ceiling)
}

/// Labels of a sequence of moves.
pub open spec fn labels(moves: Seq<BoardMove>) -> Seq<Seq<char>> {
    moves.map_values(|m: BoardMove| move_label(m))
}

/// The driver's result carries the labels of those moves and that threshold,
/// or that failure.
pub open spec fn result_matches(
    r: Result<IdaResult, SearchFailure>,
    s: Result<(Seq<BoardMove>, int), SearchFailure>,
) -> bool {
    match s {
        Ok((moves, t)) => r matches Ok(res) && res.path@.map_values(|x: String| x@) == labels(
            moves,
        ) && res.threshold == t,
        Err(e) => r == Err::<IdaResult, SearchFailure>(e),
    }
}

/// From any cell of a board with side at least two, the blank can move up or
/// down, so every board has a successor.
pub proof fn lemma_has_successor(side: int, n: NodeView)
    requires
        2 <= side <= 65535,
        wf_board(side, n.board),
    ensures
        successors_spec(side, n).len() >= 1,
{
    lemma_blank(n.board);
    let z = blank(n.board);
    assert(side * side >= 2 * side) by (nonlinear_arith)
        requires side >= 2;
    reveal_with_fuel(successors_upto, 5);
    assert(move_valid(side, z, BoardMove::Up) || move_valid(side, z, BoardMove::Down));
    assert(successors_upto(side, n, 2).len() >= successors_upto(side, n, 1).len());
    assert(successors_upto(side, n, 3).len() >= successors_upto(side, n, 2).len());
    assert(successors_upto(side, n, 4).len() >= successors_upto(side, n, 3).len());
}

/// Each slide from a root costs one, so the first threshold is one.
pub proof fn lemma_initial_threshold(side: int, root: NodeView)
    requires
        2 <= side <= 65535,
        wf_board(side, root.board),
    ensures
        initial_threshold(side, root) == 1,
{
    let s = successors_spec(side, root);
    lemma_has_successor(side, root);
    lemma_successors(side, root, 4);
    lemma_min_cost_one(s, s.len() as int);
}

proof fn lemma_min_cost_one(s: Seq<NodeView>, k: int)
    requires
        1 <= k <= s.len(),
        forall|j: int| 0 <= j < s.len() ==> (#[trigger] s[j]).cost == 1,
    ensures
        min_cost_upto(s, k) == 1,
    decreases k,
{
    if k > 1 {
        lemma_min_cost_one(s, k - 1);
    }
}

/// Labels of the moves, in order.
fn labels_of(moves: &Vec<BoardMove>) -> (r: Vec<String>)
    ensures
        r@.map_values(|x: String| x@) == labels(moves@),
{
    let mut r: Vec<String> = Vec::new();
    let mut i: usize = 0;
    while i < moves.len()
        invariant
            i <= moves@.len(),
            r@.map_values(|x: String| x@) == labels(moves@.subrange(0, i as int)),
        decreases moves@.len() - i,
    {
        let label = board_move_to_string(&moves[i]);
        let ghost before = r@;
        r.push(label);
        i = i + 1;
        proof {
            let lhs = r@.map_values(|x: String| x@);
            let rhs = labels(moves@.subrange(0, i as int));
            let prev = labels(moves@.subrange(0, i - 1));
            assert(before.map_values(|x: String| x@) == prev);
            assert forall|k: int| 0 <= k < lhs.len() implies lhs[k] == rhs[k] by {
                if k < i - 1 {
                    assert(lhs[k] == before.map_values(|x: String| x@)[k]);
                    assert(prev[k] == rhs[k]);
                }
            }
            assert(lhs =~= rhs);
        }
    }
    proof {
        assert(moves@.subrange(0, i as int) =~= moves@);
    }
    r
}

/// Iterative deepening A*: bounded searches from `root`, the first with the
/// smallest slide cost from the root as threshold, each later one with the
/// bound the previous one reported, until one reaches a goal. The reported
/// threshold is that goal's path cost plus estimate. Gives up once the next
/// threshold would pass `THRESHOLD_CEILING`.
pub fn ida_star(pz: &Puzzle, root: PuzzleNode) -> (r: Result<IdaResult, SearchFailure>)
    requires
        pz.wf(),
        wf_board(pz.side(), root.board@),
    ensures
        result_matches(r, ida_star_spec(pz.side(), pz.goal_cell(), root@, THRESHOLD_CEILING as int)),
{
    ida_star_with_ceiling(pz, root, THRESHOLD_CEILING)
}

/// `ida_star` with a ceiling of the caller's choice: gives up once the next
/// threshold would pass `ceiling`.
pub fn ida_star_with_ceiling(pz: &Puzzle, root: PuzzleNode, ceiling: u32) -> (r: Result<
    IdaResult,
    SearchFailure,
>)
    requires
        pz.wf(),
        wf_board(pz.side(), root.board@),
        ceiling <= THRESHOLD_CEILING,
    ensures
        result_matches(r, ida_star_spec(pz.side(), pz.goal_cell(), root@, ceiling as int)),
{
    let ghost side = pz.side();
    let ghost goal = pz.goal_cell();
    let ghost root_view = root@;
    let successors = get_successors(pz.board_side, &root);
    let ghost succs = successors_spec(side, root_view);
    proof {
        lemma_has_successor(side, root_view);
        lemma_successors(side, root_view, 4);
    }
    let mut threshold: u32 = successors[0].cost;
    let mut i: usize = 1;
    while i < successors.len()
        invariant
            1 <= i <= successors@.len(),
            successors@.len() == succs.len(),
            forall|k: int| 0 <= k < successors@.len() ==> (#[trigger] successors@[k])@ == succs[k],
            forall|k: int| 0 <= k < succs.len() ==> (#[trigger] succs[k]).cost == 1,
            threshold == min_cost_upto(succs, i as int),
            threshold == 1,
        decreases successors@.len() - i,
    {
        if successors[i].cost < threshold {
            threshold = successors[i].cost;
        }
        i = i + 1;
    }
    let mut path: Vec<PuzzleNode> = Vec::new();
    path.push(root);
    loop
        invariant
            pz.wf(),
            side == pz.side(),
            goal == pz.goal_cell(),
            path@.len() == 1,
            path@[0]@ == root_view,
            root_view == root@,
            wf_board(side, root_view.board),
            1 <= threshold <= THRESHOLD_CEILING,
            ceiling <= THRESHOLD_CEILING,
            ida_loop_spec(side, goal, root_view, threshold as int, ceiling as int) == ida_star_spec(
                side,
                goal,
                root_view,
                ceiling as int,
            ),
        decreases THRESHOLD_CEILING + 1 - threshold,
    {
        proof {
            assert(boards_of(path@) =~= seq![root_view.board]);
            lemma_search_outcome(side, goal, seq![root_view.board], root_view, 0, threshold as int);
        }
        let result = search(pz, &mut path, 0, threshold);
        if pz.goal.is_goal(&result.node) {
            match result.node {
                Some(node) => {
                    return Ok(IdaResult { path: labels_of(&node.path_to_puzzle_node), threshold: result.cost });
                },
                None => {},
            }
        }
        // A node a search returns is always a goal; one that is not, left on
        // the path by that search, ends the run without a solution.
        match &result.node {
            Some(node) => {
                if is_node_in_path(node, &path) {
                    return Err(SearchFailure::NoSolution);
                }
            },
            None => {},
        }
        if result.cost > ceiling {
            return Err(SearchFailure::DidNotConverge);
        }
        threshold = result.cost;
    }
}

/// The goal cell given on input: `-1` stands for the last cell.
pub open spec fn goal_for(board_size: int, raw: int) -> int {
    if raw == -1 { board_size } else { raw }
}

/// A root node: no moves yet, no cost.
pub open spec fn root_of(board: Seq<u32>) -> NodeView {
    NodeView { cost: 0, board, moves: Seq::empty() }
}

/// The inputs describe a puzzle the solver accepts: a side of at least two,
/// a goal cell on the board, and a board of that side with one blank.
pub open spec fn valid_input(side: int, goal: int, board: Seq<u32>) -> bool {
    &&& 2 <= side <= 65535
    &&& 0 <= goal < side * side
    &&& wf_board(side, board)
}

/// Solves the puzzle with `board_size` numbered tiles, the blank's goal cell
/// `goal_index_raw` (`-1` for the last cell) and the given initial board.
/// Returns `None` when these do not describe a puzzle the solver accepts.
pub fn solve_puzzle(board_size: u32, goal_index_raw: i32, board: Vec<u32>) -> (r: Option<
    Result<IdaResult, SearchFailure>,
>)
    ensures
        ({
            let side = crate::geometry::side_for(board_size as int);
            let goal = goal_for(board_size as int, goal_index_raw as int);
            &&& r is None <==> !valid_input(side, goal, board@)
            &&& r matches Some(x) ==> result_matches(x, ida_star_spec(side, goal, root_of(board@), THRESHOLD_CEILING as int))
        }),
{
    let board_side = crate::geometry::board_size_to_board_side(board_size);
    if board_side < 2 || board_side > 65535 || goal_index_raw < -1 {
        return None;
    }
    let goal_index: usize = if goal_index_raw == -1 {
        board_size as usize
    } else {
        goal_index_raw as usize
    };
    if goal_index as u64 >= board_side as u64 * board_side as u64 {
        return None;
    }
    if !crate::geometry::is_valid_board(board_side, &board) {
        return None;
    }
    let pz = Puzzle { board_side, goal: crate::goal::is_goal_creator(goal_index) };
    let root = PuzzleNode { cost: 0, board, path_to_puzzle_node: Vec::new() };
    proof {
        assert(root@ == root_of(board@));
    }
    Some(ida_star(&pz, root))
}

} // verus!
