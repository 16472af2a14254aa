//! The threshold-bounded depth-first search at the heart of IDA*.

use vstd::prelude::*;
use crate::geometry::{blank, lemma_blank, lemma_point_bounds, manhattan, wf_board};
use crate::goal::{is_goal_board, GoalPredicate};
use crate::node::{
    boards_of, default_step_cost, get_successors, is_node_in_path, lemma_successors,
    successors_spec, NodeView, PuzzleNode,
};

verus! {

/// Largest threshold a search is run with; the driver gives up beyond it.
pub const THRESHOLD_CEILING: u32 = 1_000_000_000;

/// A puzzle instance: the side of the square board and the goal test.
#[derive(Clone, Copy, Debug)]
pub struct Puzzle {
    pub board_side: u32,
    pub goal: GoalPredicate,
}

/// Lower bound on the remaining cost: how far the blank is from its goal cell.
pub open spec fn heuristic_spec(side: int, goal: int, b: Seq<u32>) -> int {
    manhattan(side, blank(b), goal)
}

impl Puzzle {
    pub open spec fn side(&self) -> int {
        self.board_side as int
    }

    pub open spec fn goal_cell(&self) -> int {
        self.goal.goal_index as int
    }

    /// The board side is at least two and fits the index arithmetic, and the
    /// goal cell lies on the board.
    pub open spec fn wf(&self) -> bool {
        &&& 2 <= self.board_side <= 65535
        &&& self.goal.goal_index < self.board_side * self.board_side
    }

    /// Manhattan distance from the blank tile to its goal cell.
    pub fn heuristic(&self, node: &PuzzleNode) -> (r: u32)
        requires
            self.wf(),
            wf_board(self.side(), node.board@),
        ensures
            r == heuristic_spec(self.side(), self.goal_cell(), node.board@),
            r <= 2 * 65535,
    {
        let ghost side = self.side();
        proof {
            lemma_blank(node.board@);
            lemma_point_bounds(side, blank(node.board@));
            lemma_point_bounds(side, self.goal_cell());
            assert(side * side <= 65535 * 65535) by (nonlinear_arith)
                requires side <= 65535, side >= 2;
        }
        let here = crate::geometry::board_to_point_2d(self.board_side, &node.board);
        let there = crate::geometry::index_1d_to_index_2d(self.board_side, self.goal.goal_index);
        crate::geometry::get_manhatten_distance(&here, &there)
    }
}

/// Outcome of a bounded search, as values.
pub struct SearchOutcome {
    pub cost: int,
    pub node: Option<NodeView>,
}

/// Outcome of a bounded search: a goal node, or none and the smallest
/// bound that exceeded the threshold.
#[derive(Debug)]
pub struct SearchResult {
    pub cost: u32,
    pub node: Option<PuzzleNode>,
}

impl View for SearchResult {
    type V = SearchOutcome;

    open spec fn view(&self) -> SearchOutcome {
        SearchOutcome {
            cost: self.cost as int,
            node: match self.node {
                Some(n) => Some(n@),
                None => None,
            },
        }
    }
}

/// The bounded depth-first search from `node`, reached at cost `g`, with the
/// boards of the current chain in `path`. A node whose cost plus estimate
/// exceeds `t` is cut off; a goal within the bound is returned at once;
/// otherwise the successors are tried in order, skipping boards on the chain,
/// each slide costing one.
pub open spec fn search_spec(
    side: int,
    goal: int,
    path: Seq<Seq<u32>>,
    node: NodeView,
    g: int,
    t: int,
) -> SearchOutcome
    decreases t + 1 - g, 1int, 0int,
{
    let f = g + heuristic_spec(side, goal, node.board);
    if f > t {
        SearchOutcome { cost: f, node: None }
    } else if is_goal_board(goal, node.board) {
        SearchOutcome { cost: f, node: Some(node) }
    } else {
        scan_spec(side, goal, path, successors_spec(side, node), 0, g, t, u32::MAX as int)
    }
}

/// The successors `succs[i..]` of a node at cost `g` tried in turn; `min` is
/// the smallest bound returned by those already tried.
pub open spec fn scan_spec(
    side: int,
    goal: int,
    path: Seq<Seq<u32>>,
    succs: Seq<NodeView>,
    i: int,
    g: int,
    t: int,
    min: int,
) -> SearchOutcome
    decreases t + 1 - g, 0int, succs.len() - i when 0 <= i && g <= t
{
    if i >= succs.len() {
        SearchOutcome { cost: min, node: None }
    } else if path.contains(succs[i].board) {
        scan_spec(side, goal, path, succs, i + 1, g, t, min)
    } else {
        let r = search_spec(side, goal, path.push(succs[i].board), succs[i], g + 1, t);
        if r.node is Some {
            r
        } else {
            scan_spec(side, goal, path, succs, i + 1, g, t, if r.cost < min { r.cost } else { min })
        }
    }
}

/// `fin` is `start` followed by a chain of successors: each node after
/// `start` is a successor of the one before it, and the boards it adds are
/// neither on `start` nor repeated among themselves.
pub open spec fn extends_by_chain(side: int, start: Seq<PuzzleNode>, fin: Seq<PuzzleNode>) -> bool {
    &&& start.len() <= fin.len()
    &&& fin.subrange(0, start.len() as int) == start
    &&& forall|k: int|
        start.len() <= k < fin.len() ==> successors_spec(side, fin[k - 1]@).contains(
            #[trigger] fin[k]@,
        )
    &&& forall|k: int| start.len() <= k < fin.len() ==> !boards_of(start).contains(#[trigger] fin[k].board@)
    &&& forall|a: int, b: int|
        start.len() <= a < b < fin.len() ==> #[trigger] fin[a].board@ != #[trigger] fin[b].board@
}

/// A chain that extends `start` with `c` extends `start` itself, when `c`
/// is a new successor of the last node of `start`.
proof fn lemma_chain_step(side: int, start: Seq<PuzzleNode>, c: PuzzleNode, fin: Seq<PuzzleNode>)
    requires
        start.len() > 0,
        successors_spec(side, start.last()@).contains(c@),
        !boards_of(start).contains(c.board@),
        extends_by_chain(side, start.push(c), fin),
    ensures
        extends_by_chain(side, start, fin),
{
    let pushed = start.push(c);
    let n = start.len() as int;
    assert(boards_of(pushed) =~= boards_of(start).push(c.board@));
    assert forall|k: int| 0 <= k < pushed.len() implies fin[k] == pushed[k] by {
        assert(fin.subrange(0, pushed.len() as int)[k] == pushed[k]);
    }
    assert(fin.subrange(0, n) =~= start);
    assert(fin[n] == c);
    assert(fin[n - 1] == start.last());
    assert forall|k: int| n <= k < fin.len() implies !boards_of(start).contains(#[trigger] fin[k].board@) by {
        if k > n && boards_of(start).contains(fin[k].board@) {
            let j = choose|j: int| 0 <= j < boards_of(start).len() && boards_of(start)[j] == fin[k].board@;
            assert(boards_of(pushed)[j] == fin[k].board@);
        }
    }
    assert forall|a: int, b: int| n <= a < b < fin.len() implies #[trigger] fin[a].board@ != #[trigger] fin[b].board@ by {
        if a == n {
            assert(boards_of(pushed)[n] == c.board@);
            assert(!boards_of(pushed).contains(fin[b].board@));
        }
    }
}

/// Runs the bounded search on the last node of `path` at cost `current_cost`.
/// On failure the path is left as it was; on success it ends with the chain
/// that reached the goal.
pub fn search(pz: &Puzzle, path: &mut Vec<PuzzleNode>, current_cost: u32, threshold: u32) -> (r:
    SearchResult)
    requires
        pz.wf(),
        old(path)@.len() > 0,
        forall|k: int| 0 <= k < old(path)@.len() ==> wf_board(pz.side(), #[trigger] old(path)@[k].board@),
        threshold <= THRESHOLD_CEILING,
        current_cost <= u32::MAX - 2 * 65535,
    ensures
        r@ == search_spec(
            pz.side(),
            pz.goal_cell(),
            boards_of(old(path)@),
            old(path)@.last()@,
            current_cost as int,
            threshold as int,
        ),
        r.node is None ==> final(path)@ == old(path)@,
        r.node matches Some(n) ==> {
            &&& extends_by_chain(pz.side(), old(path)@, final(path)@)
            &&& final(path)@.last()@ == n@
            &&& final(path)@.len() - old(path)@.len() == n@.moves.len() - old(path)@.last()@.moves.len()
            &&& r.cost == current_cost + (final(path)@.len() - old(path)@.len()) + heuristic_spec(
                pz.side(),
                pz.goal_cell(),
                n.board@,
            )
        },
    decreases threshold + 1 - current_cost,
{
    let ghost side = pz.side();
    let ghost goal = pz.goal_cell();
    let ghost entry = path@;
    let last = path.len() - 1;
    let h = pz.heuristic(&path[last]);
    let f = current_cost + h;
    if f > threshold {
        return SearchResult { cost: f, node: None };
    }
    if pz.goal.matches_board(&path[last].board) {
        proof {
            assert(entry.subrange(0, entry.len() as int) =~= entry);
        }
        return SearchResult { cost: f, node: Some(path[last].copy()) };
    }
    let successors = get_successors(pz.board_side, &path[last]);
    let ghost node = entry.last()@;
    let ghost succs = successors_spec(side, node);
    proof {
        lemma_successors(side, node, 4);
    }
    let mut min: u32 = u32::MAX;
    let mut i: usize = 0;
    while i < successors.len()
        invariant
            pz.wf(),
            side == pz.side(),
            goal == pz.goal_cell(),
            path@ == entry,
            entry == old(path)@,
            entry.len() > 0,
            last == entry.len() - 1,
            node == entry.last()@,
            forall|k: int| 0 <= k < entry.len() ==> wf_board(side, #[trigger] entry[k].board@),
            threshold <= THRESHOLD_CEILING,
            current_cost <= threshold,
            succs == successors_spec(side, node),
            successors@.len() == succs.len(),
            forall|k: int| 0 <= k < successors@.len() ==> (#[trigger] successors@[k])@ == succs[k],
            forall|k: int| 0 <= k < succs.len() ==> {
                let s = #[trigger] succs[k];
                &&& wf_board(side, s.board)
                &&& manhattan(side, blank(node.board), blank(s.board)) == 1
                &&& s.moves.len() == node.moves.len() + 1
            },
            i <= successors@.len(),
            search_spec(side, goal, boards_of(entry), node, current_cost as int, threshold as int)
                == scan_spec(side, goal, boards_of(entry), succs, i as int, current_cost as int,
                    threshold as int, min as int),
        decreases successors@.len() - i,
    {
        let in_path = is_node_in_path(&successors[i], path);
        if !in_path {
            let step = default_step_cost(pz.board_side, &path[last], &successors[i]);
            path.push(successors[i].copy());
            proof {
                assert(boards_of(path@) =~= boards_of(entry).push(succs[i as int].board));
                assert(step == 1);
            }
            let ghost pushed = path@;
            let r = search(pz, path, current_cost + step, threshold);
            if r.node.is_some() {
                proof {
                    assert(pushed == entry.push(pushed.last()));
                    assert(succs.contains(succs[i as int]));
                    lemma_chain_step(side, entry, pushed.last(), path@);
                }
                return r;
            }
            if r.cost < min {
                min = r.cost;
            }
            path.pop();
            proof {
                assert(path@ =~= entry);
            }
        }
        i = i + 1;
    }
    SearchResult { cost: min, node: None }
}


/// A bounded search that finds no goal reports a bound above the threshold,
/// and one that finds a node finds a goal.
pub proof fn lemma_search_outcome(
    side: int,
    goal: int,
    path: Seq<Seq<u32>>,
    node: NodeView,
    g: int,
    t: int,
)
    requires
        g <= t + 1,
        t < u32::MAX,
    ensures
        ({
            let r = search_spec(side, goal, path, node, g, t);
            &&& r.node is None ==> r.cost > t
            &&& r.node matches Some(n) ==> is_goal_board(goal, n.board)
        }),
    decreases t + 1 - g, 1int, 0int,
{
    let f = g + heuristic_spec(side, goal, node.board);
    if f <= t && !is_goal_board(goal, node.board) {
        lemma_scan_outcome(side, goal, path, successors_spec(side, node), 0, g, t, u32::MAX as int);
    }
}

/// The counterpart of `lemma_search_outcome` for the scan over successors.
pub proof fn lemma_scan_outcome(
    side: int,
    goal: int,
    path: Seq<Seq<u32>>,
    succs: Seq<NodeView>,
    i: int,
    g: int,
    t: int,
    min: int,
)
    requires
        0 <= i,
        g <= t,
        min > t,
        t < u32::MAX,
    ensures
        ({
            let r = scan_spec(side, goal, path, succs, i, g, t, min);
            &&& r.node is None ==> r.cost > t
            &&& r.node matches Some(n) ==> is_goal_board(goal, n.board)
        }),
    decreases t + 1 - g, 0int, succs.len() - i,
{
    if i < succs.len() {
        if path.contains(succs[i].board) {
            lemma_scan_outcome(side, goal, path, succs, i + 1, g, t, min);
        } else {
            lemma_search_outcome(side, goal, path.push(succs[i].board), succs[i], g + 1, t);
            let r = search_spec(side, goal, path.push(succs[i].board), succs[i], g + 1, t);
            if r.node is None {
                let m = if r.cost < min { r.cost } else { min };
                lemma_scan_outcome(side, goal, path, succs, i + 1, g, t, m);
            }
        }
    }
}

} // verus!
