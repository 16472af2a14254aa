//! The four slides of the blank tile and where each one takes it.

use vstd::prelude::*;
use vstd::arithmetic::div_mod::*;
use crate::geometry::manhattan;

verus! {

/// Direction in which the blank tile moves.
#[derive(Clone, Copy, Debug, PartialEq, Eq, Structural)]
pub enum BoardMove {
    Up,
    Right,
    Down,
    Left,
}

/// The fixed order in which moves are tried.
pub open spec fn move_order() -> Seq<BoardMove> {
    seq![BoardMove::Up, BoardMove::Right, BoardMove::Down, BoardMove::Left]
}

/// The label printed for a move.
pub open spec fn move_label(m: BoardMove) -> Seq<char> {
    match m {
        BoardMove::Up => "up"@,
        BoardMove::Right => "right"@,
        BoardMove::Down => "down"@,
        BoardMove::Left => "left"@,
    }
}

/// Index the blank lands on after a move from `i`; an index at or past
/// `side * side` marks a move off the board.
pub open spec fn move_index_spec(side: int, i: int, m: BoardMove) -> int {
    match m {
        BoardMove::Down => if i < side { usize::MAX as int } else { i - side },
        BoardMove::Up => i + side,
        BoardMove::Right => if i % side == 0 { usize::MAX as int } else { i - 1 },
        BoardMove::Left => if i % side == side - 1 { side * side } else { i + 1 },
    }
}

/// The move is possible from `i`.
pub open spec fn move_valid(side: int, i: int, m: BoardMove) -> bool {
    move_index_spec(side, i, m) < side * side
}

/// The `k`-th move of the fixed order.
pub fn move_at(k: usize) -> (r: BoardMove)
    requires
        k < 4,
    ensures
        r == move_order()[k as int],
{
    if k == 0 {
        BoardMove::Up
    } else if k == 1 {
        BoardMove::Right
    } else if k == 2 {
        BoardMove::Down
    } else {
        BoardMove::Left
    }
}

/// The label of a move: "up", "right", "down" or "left".
pub fn board_move_to_string(board_move: &BoardMove) -> (r: String)
    ensures
        r@ == move_label(*board_move),
{
    match board_move {
        BoardMove::Up => "up".to_owned(),
        BoardMove::Right => "right".to_owned(),
        BoardMove::Down => "down".to_owned(),
        BoardMove::Left => "left".to_owned(),
    }
}

/// Where the blank lands after the move, or an out-of-range index where the
/// move would leave the board.
pub fn get_move_index(board_side: u32, current_index: usize, board_mode: &BoardMove) -> (r: usize)
    requires
        2 <= board_side <= 65535,
        current_index < board_side * board_side,
    ensures
        r == move_index_spec(board_side as int, current_index as int, *board_mode),
{
    proof {
        assert(board_side * board_side <= 65535 * 65535) by (nonlinear_arith)
            requires board_side <= 65535;
    }
    let side = board_side as usize;
    match board_mode {
        BoardMove::Down => {
            if current_index < side {
                usize::MAX
            } else {
                current_index - side
            }
        },
        BoardMove::Up => current_index + side,
        BoardMove::Right => {
            proof {
                lemma_fundamental_div_mod_converse(0, side as int, 0, 0);
            }
            if current_index % side == 0 {
                usize::MAX
            } else {
                current_index - 1
            }
        },
        BoardMove::Left => {
            if current_index % side == side - 1 {
                side * side
            } else {
                current_index + 1
            }
        },
    }
}

/// A possible move takes the blank to a different cell at Manhattan distance one.
pub proof fn lemma_move_adjacent(side: int, i: int, m: BoardMove)
    requires
        2 <= side <= 65535,
        0 <= i < side * side,
        move_valid(side, i, m),
    ensures
        0 <= move_index_spec(side, i, m) < side * side,
        move_index_spec(side, i, m) != i,
        manhattan(side, i, move_index_spec(side, i, m)) == 1,
{
    assert(side * side <= 65535 * 65535) by (nonlinear_arith)
        requires side <= 65535, side >= 2;
    let j = move_index_spec(side, i, m);
    let q = i / side;
    let r = i % side;
    lemma_fundamental_div_mod(i, side);
    assert(0 <= r < side);
    assert(i == q * side + r) by (nonlinear_arith)
        requires i == side * q + r;
    match m {
        BoardMove::Up => {
            assert(j == (q + 1) * side + r) by (nonlinear_arith)
                requires j == i + side, i == q * side + r;
            lemma_fundamental_div_mod_converse(j, side, q + 1, r);
        },
        BoardMove::Down => {
            assert(j == (q - 1) * side + r) by (nonlinear_arith)
                requires j == i - side, i == q * side + r;
            lemma_fundamental_div_mod_converse(j, side, q - 1, r);
        },
        BoardMove::Right => {
            lemma_fundamental_div_mod_converse(j, side, q, r - 1);
        },
        BoardMove::Left => {
            lemma_fundamental_div_mod_converse(j, side, q, r + 1);
        },
    }
}

} // verus!
