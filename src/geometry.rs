//! Board geometry: flattened indices, 2D points, the blank tile and
//! Manhattan distances.

use vstd::prelude::*;
use vstd::arithmetic::div_mod::*;

verus! {

/// A cell position: `x` is the column, `y` the row.
#[derive(Clone, Copy, Debug, PartialEq, Eq, Structural)]
pub struct Point2D {
    pub x: u32,
    pub y: u32,
}

/// Column of a flattened index.
pub open spec fn col_of(side: int, i: int) -> int {
    i % side
}

/// Row of a flattened index.
pub open spec fn row_of(side: int, i: int) -> int {
    i / side
}

pub open spec fn abs_diff(a: int, b: int) -> int {
    if a >= b { a - b } else { b - a }
}

/// Manhattan distance between two flattened indices on a board of the given side.
pub open spec fn manhattan(side: int, i: int, j: int) -> int {
    abs_diff(col_of(side, i), col_of(side, j)) + abs_diff(row_of(side, i), row_of(side, j))
}

pub open spec fn has_blank(b: Seq<u32>) -> bool {
    exists|i: int| 0 <= i < b.len() && b[i] == 0
}

/// The board holds exactly one blank tile.
pub open spec fn has_unique_blank(b: Seq<u32>) -> bool {
    &&& has_blank(b)
    &&& forall|i: int, j: int|
        0 <= i < b.len() && 0 <= j < b.len() && b[i] == 0 && b[j] == 0 ==> i == j
}

/// Position of the blank tile of a board that has exactly one.
pub open spec fn blank(b: Seq<u32>) -> int {
    choose|i: int| 0 <= i < b.len() && b[i] == 0
}

/// A board of `side * side` cells with exactly one blank.
pub open spec fn wf_board(side: int, b: Seq<u32>) -> bool {
    &&& b.len() == side * side
    &&& has_unique_blank(b)
}

pub proof fn lemma_blank(b: Seq<u32>)
    requires
        has_unique_blank(b),
    ensures
        0 <= blank(b) < b.len(),
        b[blank(b)] == 0,
        forall|j: int| 0 <= j < b.len() && b[j] == 0 ==> j == blank(b),
{
}

/// A cell of the board has its column and row inside the board.
pub proof fn lemma_point_bounds(side: int, i: int)
    requires
        side > 0,
        0 <= i < side * side,
    ensures
        0 <= col_of(side, i) < side,
        0 <= row_of(side, i) < side,
{
    lemma_fundamental_div_mod(i, side);
    let q = i / side;
    let r = i % side;
    assert(0 <= r < side);
    assert(0 <= q < side) by (nonlinear_arith)
        requires i == side * q + r, 0 <= r < side, 0 <= i < side * side, side > 0;
}

/// Converts a flattened index into its column and row.
pub fn index_1d_to_index_2d(board_side: u32, index: usize) -> (r: Point2D)
    requires
        board_side > 0,
        index <= u32::MAX,
    ensures
        r.x == col_of(board_side as int, index as int),
        r.y == row_of(board_side as int, index as int),
{
    Point2D { x: index as u32 % board_side, y: index as u32 / board_side }
}

/// Sum of the absolute coordinate differences of two points.
pub fn get_manhatten_distance(a: &Point2D, b: &Point2D) -> (r: u32)
    requires
        abs_diff(a.x as int, b.x as int) + abs_diff(a.y as int, b.y as int) <= u32::MAX,
    ensures
        r == abs_diff(a.x as int, b.x as int) + abs_diff(a.y as int, b.y as int),
{
    let dx: u32 = if a.x >= b.x { a.x - b.x } else { b.x - a.x };
    let dy: u32 = if a.y >= b.y { a.y - b.y } else { b.y - a.y };
    dx + dy
}

/// Index of the first blank tile.
pub fn get_zero_index(vector: &Vec<u32>) -> (r: usize)
    requires
        has_blank(vector@),
    ensures
        r < vector@.len(),
        vector@[r as int] == 0,
        forall|j: int| 0 <= j < r ==> vector@[j] != 0,
{
    let mut i: usize = 0;
    while i < vector.len()
        invariant
            i <= vector@.len(),
            has_blank(vector@),
            forall|j: int| 0 <= j < i ==> vector@[j] != 0,
        decreases vector@.len() - i,
    {
        if vector[i] == 0 {
            return i;
        }
        i = i + 1;
    }
    proof {
        let k = choose|k: int| 0 <= k < vector@.len() && vector@[k] == 0;
        assert(vector@[k] != 0);
    }
    0
}

/// Column and row of the blank tile.
pub fn board_to_point_2d(board_side: u32, board: &Vec<u32>) -> (r: Point2D)
    requires
        board_side > 0,
        board@.len() <= u32::MAX,
        has_unique_blank(board@),
    ensures
        r.x == col_of(board_side as int, blank(board@)),
        r.y == row_of(board_side as int, blank(board@)),
{
    let z = get_zero_index(board);
    proof {
        lemma_blank(board@);
    }
    index_1d_to_index_2d(board_side, z)
}

/// `s` is the integer square root of `n`.
pub open spec fn is_floor_sqrt(n: int, s: int) -> bool {
    0 <= s && s * s <= n && n < (s + 1) * (s + 1)
}

/// The integer square root of `size + 1`.
pub open spec fn side_for(size: int) -> int {
    choose|s: int| #[trigger] is_floor_sqrt(size + 1, s)
}

proof fn lemma_side_for(size: int, r: int)
    requires
        0 <= r,
        r * r <= size + 1 < (r + 1) * (r + 1),
    ensures
        side_for(size) == r,
{
    assert(is_floor_sqrt(size + 1, r));
    let s = side_for(size);
    assert(is_floor_sqrt(size + 1, s));
    if s < r {
        assert((s + 1) * (s + 1) <= r * r) by (nonlinear_arith)
            requires 0 <= s, s + 1 <= r;
    } else if s > r {
        assert((r + 1) * (r + 1) <= s * s) by (nonlinear_arith)
            requires 0 <= r, r + 1 <= s;
    }
}

/// The side of a square board holding `size` numbered tiles and one blank:
/// the integer square root of `size + 1`.
pub fn board_size_to_board_side(size: u32) -> (r: u32)
    ensures
        r as int * r as int <= size as int + 1,
        size as int + 1 < (r as int + 1) * (r as int + 1),
        r == side_for(size as int),
{
    let n: u64 = size as u64 + 1;
    let mut r: u64 = 0;
    proof {
        assert((r + 1) * (r + 1) == 1);
    }
    while (r + 1) * (r + 1) <= n
        invariant
            (r + 1) * (r + 1) <= 65537 * 65537,
            n == size as int + 1,
            r * r <= n,
            r <= 65536,
        decreases n - r * r,
    {
        proof {
            assert((r + 1) * (r + 1) > r * r) by (nonlinear_arith);
            if r + 1 > 65536 {
                assert((r + 1) * (r + 1) > 65536 * 65536) by (nonlinear_arith)
                    requires r + 1 > 65536;
            }
        }
        r = r + 1;
        proof {
            assert((r + 1) * (r + 1) <= 65537 * 65537) by (nonlinear_arith)
                requires r <= 65536;
        }
    }
    proof {
        if r == 65536 {
            assert(r * r == 65536 * 65536);
        }
        lemma_side_for(size as int, r as int);
    }
    r as u32
}

/// Tells whether the board has `side * side` cells and exactly one blank.
pub fn is_valid_board(board_side: u32, board: &Vec<u32>) -> (r: bool)
    ensures
        r == wf_board(board_side as int, board@),
{
    proof {
        assert(board_side as int * board_side as int <= u32::MAX as int * u32::MAX as int)
            by (nonlinear_arith);
    }
    let expected: u64 = board_side as u64 * board_side as u64;
    if board.len() as u64 != expected {
        return false;
    }
    let mut found: Option<usize> = None;
    let mut i: usize = 0;
    while i < board.len()
        invariant
            i <= board@.len(),
            match found {
                None => forall|j: int| 0 <= j < i ==> board@[j] != 0,
                Some(k) => k < i && board@[k as int] == 0 && forall|j: int|
                    0 <= j < i && board@[j] == 0 ==> j == k,
            },
        decreases board@.len() - i,
    {
        if board[i] == 0 {
            if found.is_some() {
                return false;
            }
            found = Some(i);
        }
        i = i + 1;
    }
    found.is_some()
}

} // verus!
