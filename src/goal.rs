//! The goal test and the parity pre-check on initial boards.

use vstd::prelude::*;
use crate::node::PuzzleNode;

verus! {

/// The blank sits at `goal` and the other tiles ascend in reading order.
pub open spec fn is_goal_board(goal: int, b: Seq<u32>) -> bool {
    &&& 0 <= goal < b.len()
    &&& b[goal] == 0
    &&& forall|p: int, q: int|
        0 <= p < q < b.len() && p != goal && q != goal ==> b[p] <= b[q]
}

/// Goal test for a fixed target cell of the blank tile.
#[derive(Clone, Copy, Debug, PartialEq, Eq, Structural)]
pub struct GoalPredicate {
    pub goal_index: usize,
}

/// The goal test whose blank belongs at `goal_index`.
pub fn is_goal_creator(goal_index: usize) -> (r: GoalPredicate)
    ensures
        r.goal_index == goal_index,
{
    GoalPredicate { goal_index }
}

impl GoalPredicate {
    /// Tells whether a board is solved: sorting its tiles, taking out the
    /// blank and putting it back at the goal cell gives the board again.
    pub fn matches_board(&self, board: &Vec<u32>) -> (r: bool)
        requires
            self.goal_index < board@.len(),
        ensures
            r == is_goal_board(self.goal_index as int, board@),
    {
        let goal = self.goal_index;
        if board[goal] != 0 {
            return false;
        }
        let mut largest: u32 = 0;
        let mut i: usize = 0;
        while i < board.len()
            invariant
                goal == self.goal_index,
                goal < board@.len(),
                board@[goal as int] == 0,
                i <= board@.len(),
                forall|p: int, q: int|
                    0 <= p < q < i && p != goal && q != goal ==> board@[p] <= board@[q],
                forall|p: int| 0 <= p < i && p != goal ==> board@[p] <= largest,
                largest == 0 || exists|p: int| 0 <= p < i && p != goal && board@[p] == largest,
            decreases board@.len() - i,
        {
            if i != goal {
                if board[i] < largest {
                    proof {
                        let p = choose|p: int| 0 <= p < i && p != goal && board@[p] == largest;
                        let q = i as int;
                        assert(0 <= p < q < board@.len() && p != goal && q != goal
                            && !(board@[p] <= board@[q]));
                    }
                    return false;
                }
                largest = board[i];
            }
            i = i + 1;
        }
        true
    }

    /// The goal test on an optional node; an absent node is no goal.
    pub fn is_goal(&self, node: &Option<PuzzleNode>) -> (r: bool)
        requires
            node matches Some(n) ==> self.goal_index < n.board@.len(),
        ensures
            r == (node matches Some(n) && is_goal_board(self.goal_index as int, n.board@)),
    {
        match node {
            None => false,
            Some(n) => self.matches_board(&n.board),
        }
    }
}

/// Number of positions `j` in `[lo, hi)` whose tile exceeds the tile at `i`.
pub open spec fn count_above(b: Seq<u32>, i: int, lo: int, hi: int) -> nat
    decreases hi - lo,
{
    if hi <= lo {
        0
    } else {
        count_above(b, i, lo, hi - 1) + if b[hi - 1] > b[i] { 1nat } else { 0nat }
    }
}

/// Number of pairs `i < j < n` with `i < k` whose later tile is the larger.
pub open spec fn ascending_pairs(b: Seq<u32>, n: int, k: int) -> nat
    decreases k,
{
    if k <= 0 {
        0
    } else {
        ascending_pairs(b, n, k - 1) + count_above(b, k - 1, k, n)
    }
}

/// The parity check made on an initial board before solving: the number of
/// pairs among the first `board_size` cells whose later tile is the larger is even.
pub fn is_solvable(board_size: u32, board: &Vec<u32>) -> (r: bool)
    requires
        board_size <= board@.len(),
    ensures
        r == (ascending_pairs(board@, board_size as int, board_size as int) % 2 == 0),
{
    let mut odd = false;
    let mut i: u32 = 0;
    while i < board_size
        invariant
            board_size <= board@.len(),
            i <= board_size,
            odd == (ascending_pairs(board@, board_size as int, i as int) % 2 == 1),
        decreases board_size - i,
    {
        let mut j: u32 = i + 1;
        let ghost before = ascending_pairs(board@, board_size as int, i as int);
        while j < board_size
            invariant
                board_size <= board@.len(),
                i < board_size,
                i + 1 <= j <= board_size,
                odd == ((before + count_above(board@, i as int, i + 1, j as int)) % 2 == 1),
            decreases board_size - j,
        {
            if board[j as usize] > board[i as usize] {
                odd = !odd;
            }
            j = j + 1;
        }
        i = i + 1;
    }
    !odd
}

} // verus!
