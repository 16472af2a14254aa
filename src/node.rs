//! Search nodes and the successor generator.

use vstd::prelude::*;
use crate::geometry::{
    blank, board_to_point_2d, get_manhatten_distance, get_zero_index, lemma_blank,
    lemma_point_bounds, manhattan, wf_board,
};
use crate::moves::{
    get_move_index, lemma_move_adjacent, move_at, move_index_spec, move_order, move_valid,
    BoardMove,
};

verus! {

/// A board reached by the search, with the moves that led to it from the root.
#[derive(Debug)]
pub struct PuzzleNode {
    /// Cost of the transition that produced this node; used to order the
    /// root's successors.
    pub cost: u32,
    pub board: Vec<u32>,
    pub path_to_puzzle_node: Vec<BoardMove>,
}

/// What a node stands for.
pub struct NodeView {
    pub cost: u32,
    pub board: Seq<u32>,
    pub moves: Seq<BoardMove>,
}

impl View for PuzzleNode {
    type V = NodeView;

    open spec fn view(&self) -> NodeView {
        NodeView { cost: self.cost, board: self.board@, moves: self.path_to_puzzle_node@ }
    }
}

/// The board after the blank tile makes move `m`.
pub open spec fn apply_move(side: int, b: Seq<u32>, m: BoardMove) -> Seq<u32> {
    let z = blank(b);
    let j = move_index_spec(side, z, m);
    b.update(z, b[j]).update(j, 0)
}

/// The successor of `n` by move `m`; its cost is the distance the blank travelled.
pub open spec fn child(side: int, n: NodeView, m: BoardMove) -> NodeView {
    let b = apply_move(side, n.board, m);
    NodeView {
        cost: manhattan(side, blank(n.board), blank(b)) as u32,
        board: b,
        moves: n.moves.push(m),
    }
}

/// Successors of `n` by the first `k` moves of the fixed order, in that order.
pub open spec fn successors_upto(side: int, n: NodeView, k: int) -> Seq<NodeView>
    decreases k,
{
    if k <= 0 {
        Seq::empty()
    } else {
        let earlier = successors_upto(side, n, k - 1);
        let m = move_order()[k - 1];
        if move_valid(side, blank(n.board), m) {
            earlier.push(child(side, n, m))
        } else {
            earlier
        }
    }
}

/// All boards one slide away from `n`, in the order Up, Right, Down, Left.
pub open spec fn successors_spec(side: int, n: NodeView) -> Seq<NodeView> {
    successors_upto(side, n, 4)
}

/// Sliding keeps a well-formed board well formed, and the slide costs one.
pub proof fn lemma_child(side: int, n: NodeView, m: BoardMove)
    requires
        2 <= side <= 65535,
        wf_board(side, n.board),
        move_valid(side, blank(n.board), m),
    ensures
        wf_board(side, child(side, n, m).board),
        blank(child(side, n, m).board) == move_index_spec(side, blank(n.board), m),
        child(side, n, m).cost == 1,
        manhattan(side, blank(n.board), blank(child(side, n, m).board)) == 1,
{
    lemma_blank(n.board);
    let z = blank(n.board);
    lemma_move_adjacent(side, z, m);
    let j = move_index_spec(side, z, m);
    let b = child(side, n, m).board;
    assert(n.board[j] != 0);
    assert(b[j] == 0);
    assert forall|p: int, q: int|
        0 <= p < b.len() && 0 <= q < b.len() && b[p] == 0 && b[q] == 0 implies p == q by {
        if p != j {
            assert(n.board[p] == 0);
        }
        if q != j {
            assert(n.board[q] == 0);
        }
    }
    lemma_blank(b);
}

/// Every successor of a well-formed node is well formed and costs one.
pub proof fn lemma_successors(side: int, n: NodeView, k: int)
    requires
        2 <= side <= 65535,
        wf_board(side, n.board),
        0 <= k <= 4,
    ensures
        forall|i: int| 0 <= i < successors_upto(side, n, k).len() ==> {
            let s = #[trigger] successors_upto(side, n, k)[i];
            &&& wf_board(side, s.board)
            &&& s.cost == 1
            &&& manhattan(side, blank(n.board), blank(s.board)) == 1
            &&& s.moves.len() == n.moves.len() + 1
            &&& s.moves.drop_last() == n.moves
            &&& move_valid(side, blank(n.board), s.moves.last())
            &&& s == child(side, n, s.moves.last())
        },
    decreases k,
{
    if k > 0 {
        lemma_successors(side, n, k - 1);
        let m = move_order()[k - 1];
        if move_valid(side, blank(n.board), m) {
            lemma_child(side, n, m);
            let c = child(side, n, m);
            assert(c.moves.drop_last() =~= n.moves);
            assert(c.moves.last() == m);
            let prev = successors_upto(side, n, k - 1);
            assert forall|i: int| 0 <= i < successors_upto(side, n, k).len() implies {
                let s = #[trigger] successors_upto(side, n, k)[i];
                &&& wf_board(side, s.board)
                &&& s.cost == 1
                &&& manhattan(side, blank(n.board), blank(s.board)) == 1
                &&& s.moves.len() == n.moves.len() + 1
                &&& s.moves.drop_last() == n.moves
                &&& move_valid(side, blank(n.board), s.moves.last())
                &&& s == child(side, n, s.moves.last())
            } by {
                if i < prev.len() {
                    assert(successors_upto(side, n, k)[i] == prev[i]);
                } else {
                    assert(successors_upto(side, n, k)[i] == c);
                }
            }
        }
    }
}

/// Distance the blank tile travelled between two boards.
pub fn default_step_cost(board_side: u32, a: &PuzzleNode, b: &PuzzleNode) -> (r: u32)
    requires
        2 <= board_side <= 65535,
        wf_board(board_side as int, a.board@),
        wf_board(board_side as int, b.board@),
    ensures
        r == manhattan(board_side as int, blank(a.board@), blank(b.board@)),
{
    let ghost side = board_side as int;
    proof {
        lemma_blank(a.board@);
        lemma_blank(b.board@);
        lemma_point_bounds(side, blank(a.board@));
        lemma_point_bounds(side, blank(b.board@));
        assert(side * side <= 65535 * 65535) by (nonlinear_arith)
            requires side <= 65535, side >= 2;
    }
    get_manhatten_distance(
        &board_to_point_2d(board_side, &a.board),
        &board_to_point_2d(board_side, &b.board),
    )
}

/// A copy of a list of moves.
fn copy_moves(moves: &Vec<BoardMove>) -> (r: Vec<BoardMove>)
    ensures
        r@ == moves@,
{
    let mut r: Vec<BoardMove> = Vec::new();
    let mut i: usize = 0;
    while i < moves.len()
        invariant
            i <= moves@.len(),
            r@ == moves@.subrange(0, i as int),
        decreases moves@.len() - i,
    {
        r.push(moves[i]);
        i = i + 1;
        proof {
            assert(r@ =~= moves@.subrange(0, i as int));
        }
    }
    proof {
        assert(r@ =~= moves@);
    }
    r
}

/// A copy of a board.
fn copy_board(board: &Vec<u32>) -> (r: Vec<u32>)
    ensures
        r@ == board@,
{
    let mut r: Vec<u32> = Vec::new();
    let mut i: usize = 0;
    while i < board.len()
        invariant
            i <= board@.len(),
            r@ == board@.subrange(0, i as int),
        decreases board@.len() - i,
    {
        r.push(board[i]);
        i = i + 1;
        proof {
            assert(r@ =~= board@.subrange(0, i as int));
        }
    }
    proof {
        assert(r@ =~= board@);
    }
    r
}

impl PuzzleNode {
    /// A node with the same cost, board and moves.
    pub fn copy(&self) -> (r: PuzzleNode)
        ensures
            r@ == self@,
    {
        PuzzleNode {
            cost: self.cost,
            board: copy_board(&self.board),
            path_to_puzzle_node: copy_moves(&self.path_to_puzzle_node),
        }
    }
}

/// All boards one slide of the blank away, in the order Up, Right, Down,
/// Left, each carrying the moves that reach it and the cost of the slide.
pub fn get_successors(board_side: u32, node: &PuzzleNode) -> (r: Vec<PuzzleNode>)
    requires
        2 <= board_side <= 65535,
        wf_board(board_side as int, node.board@),
    ensures
        r@.len() == successors_spec(board_side as int, node@).len(),
        forall|i: int|
            0 <= i < r@.len() ==> (#[trigger] r@[i])@ == successors_spec(board_side as int, node@)[i],
{
    let ghost side = board_side as int;
    let zero_index = get_zero_index(&node.board);
    let board_length = node.board.len();
    proof {
        lemma_blank(node.board@);
    }
    let mut result: Vec<PuzzleNode> = Vec::new();
    let mut k: usize = 0;
    while k < 4
        invariant
            2 <= board_side <= 65535,
            wf_board(side, node.board@),
            side == board_side as int,
            zero_index == blank(node.board@),
            board_length == node.board@.len(),
            k <= 4,
            result@.len() == successors_upto(side, node@, k as int).len(),
            forall|i: int|
                0 <= i < result@.len() ==> (#[trigger] result@[i])@ == successors_upto(
                    side,
                    node@,
                    k as int,
                )[i],
        decreases 4 - k,
    {
        let m = move_at(k);
        let move_index = get_move_index(board_side, zero_index, &m);
        if move_index < board_length {
            proof {
                lemma_child(side, node@, m);
            }
            let mut board = copy_board(&node.board);
            let mut path = copy_moves(&node.path_to_puzzle_node);
            path.push(m);
            let tile = board[move_index];
            board.set(zero_index, tile);
            board.set(move_index, 0);
            proof {
                assert(board@ == child(side, node@, m).board);
            }
            let probe = PuzzleNode { cost: 0, board, path_to_puzzle_node: Vec::new() };
            let cost = default_step_cost(board_side, node, &probe);
            let new_node = PuzzleNode { cost, board: probe.board, path_to_puzzle_node: path };
            proof {
                assert(new_node@ == child(side, node@, m));
            }
            result.push(new_node);
        }
        k = k + 1;
    }
    result
}

/// The two vectors hold the same elements in the same order.
pub fn do_vecs_match(a: &Vec<u32>, b: &Vec<u32>) -> (r: bool)
    ensures
        r == (a@ == b@),
{
    if a.len() != b.len() {
        return false;
    }
    let mut i: usize = 0;
    while i < a.len()
        invariant
            a@.len() == b@.len(),
            i <= a@.len(),
            forall|j: int| 0 <= j < i ==> a@[j] == b@[j],
        decreases a@.len() - i,
    {
        if a[i] != b[i] {
            return false;
        }
        i = i + 1;
    }
    proof {
        assert(a@ =~= b@);
    }
    true
}

/// The boards of a chain of nodes.
pub open spec fn boards_of(path: Seq<PuzzleNode>) -> Seq<Seq<u32>> {
    path.map_values(|n: PuzzleNode| n.board@)
}

/// Some node of the path holds the node's board.
pub fn is_node_in_path(node: &PuzzleNode, path: &Vec<PuzzleNode>) -> (r: bool)
    ensures
        r == boards_of(path@).contains(node.board@),
{
    let mut i: usize = 0;
    while i < path.len()
        invariant
            i <= path@.len(),
            forall|j: int| 0 <= j < i ==> path@[j].board@ != node.board@,
        decreases path@.len() - i,
    {
        if do_vecs_match(&path[i].board, &node.board) {
            proof {
                assert(boards_of(path@)[i as int] == node.board@);
            }
            return true;
        }
        i = i + 1;
    }
    proof {
        if boards_of(path@).contains(node.board@) {
            let j = choose|j: int| 0 <= j < boards_of(path@).len() && boards_of(path@)[j] == node.board@;
            assert(path@[j].board@ == node.board@);
        }
    }
    false
}

} // verus!
