use sliding_puzzle::geometry::{
    board_size_to_board_side, board_to_point_2d, get_manhatten_distance, get_zero_index,
    index_1d_to_index_2d, is_valid_board, Point2D,
};
use sliding_puzzle::goal::{is_goal_creator, is_solvable};
use sliding_puzzle::moves::{board_move_to_string, get_move_index, BoardMove};
use sliding_puzzle::node::{default_step_cost, do_vecs_match, get_successors, is_node_in_path, PuzzleNode};
use sliding_puzzle::search::Puzzle;

fn node(board: Vec<u32>) -> PuzzleNode {
    PuzzleNode { cost: 0, board, path_to_puzzle_node: Vec::new() }
}

#[test]
fn index_to_point() {
    assert_eq!(index_1d_to_index_2d(3, 5), Point2D { x: 2, y: 1 });
    assert_eq!(index_1d_to_index_2d(4, 0), Point2D { x: 0, y: 0 });
    assert_eq!(index_1d_to_index_2d(4, 15), Point2D { x: 3, y: 3 });
}

#[test]
fn manhattan_distance() {
    let a = Point2D { x: 0, y: 3 };
    let b = Point2D { x: 2, y: 1 };
    assert_eq!(get_manhatten_distance(&a, &b), 4);
    assert_eq!(get_manhatten_distance(&b, &a), 4);
    assert_eq!(get_manhatten_distance(&a, &a), 0);
}

#[test]
fn zero_index_and_point() {
    assert_eq!(get_zero_index(&vec![3, 1, 0, 2]), 2);
    assert_eq!(get_zero_index(&vec![0, 1, 0]), 0);
    assert_eq!(board_to_point_2d(3, &vec![1, 2, 3, 4, 5, 0, 6, 7, 8]), Point2D { x: 2, y: 1 });
}

#[test]
fn board_side_from_size() {
    assert_eq!(board_size_to_board_side(3), 2);
    assert_eq!(board_size_to_board_side(8), 3);
    assert_eq!(board_size_to_board_side(15), 4);
    assert_eq!(board_size_to_board_side(0), 1);
    assert_eq!(board_size_to_board_side(9), 3);
    assert_eq!(board_size_to_board_side(u32::MAX), 65536);
}

#[test]
fn board_validity() {
    assert!(is_valid_board(2, &vec![1, 0, 3, 2]));
    assert!(!is_valid_board(2, &vec![1, 0, 0, 2]));
    assert!(!is_valid_board(2, &vec![1, 4, 3, 2]));
    assert!(!is_valid_board(3, &vec![1, 0, 3, 2]));
}

#[test]
fn move_labels() {
    assert_eq!(board_move_to_string(&BoardMove::Up), "up");
    assert_eq!(board_move_to_string(&BoardMove::Right), "right");
    assert_eq!(board_move_to_string(&BoardMove::Down), "down");
    assert_eq!(board_move_to_string(&BoardMove::Left), "left");
}

#[test]
fn move_indices_and_edges() {
    assert_eq!(get_move_index(3, 4, &BoardMove::Up), 7);
    assert_eq!(get_move_index(3, 4, &BoardMove::Down), 1);
    assert_eq!(get_move_index(3, 4, &BoardMove::Right), 3);
    assert_eq!(get_move_index(3, 4, &BoardMove::Left), 5);
    assert_eq!(get_move_index(3, 1, &BoardMove::Down), usize::MAX);
    assert_eq!(get_move_index(3, 3, &BoardMove::Right), usize::MAX);
    assert_eq!(get_move_index(3, 5, &BoardMove::Left), 9);
    assert_eq!(get_move_index(3, 7, &BoardMove::Up), 10);
}

#[test]
fn successors_in_move_order() {
    let succ = get_successors(3, &node(vec![1, 2, 3, 4, 0, 5, 6, 7, 8]));
    let boards: Vec<Vec<u32>> = succ.iter().map(|s| s.board.clone()).collect();
    assert_eq!(
        boards,
        vec![
            vec![1, 2, 3, 4, 7, 5, 6, 0, 8],
            vec![1, 2, 3, 0, 4, 5, 6, 7, 8],
            vec![1, 0, 3, 4, 2, 5, 6, 7, 8],
            vec![1, 2, 3, 4, 5, 0, 6, 7, 8],
        ]
    );
    let moves: Vec<BoardMove> = succ.iter().map(|s| s.path_to_puzzle_node[0]).collect();
    assert_eq!(moves, vec![BoardMove::Up, BoardMove::Right, BoardMove::Down, BoardMove::Left]);
    assert!(succ.iter().all(|s| s.cost == 1));
}

#[test]
fn successors_extend_path() {
    let mut n = node(vec![1, 0, 3, 2]);
    n.path_to_puzzle_node.push(BoardMove::Down);
    let succ = get_successors(2, &n);
    assert_eq!(succ.len(), 2);
    assert_eq!(succ[0].path_to_puzzle_node, vec![BoardMove::Down, BoardMove::Up]);
    assert_eq!(succ[0].board, vec![1, 2, 3, 0]);
    assert_eq!(succ[1].path_to_puzzle_node, vec![BoardMove::Down, BoardMove::Right]);
    assert_eq!(succ[1].board, vec![0, 1, 3, 2]);
}

#[test]
fn step_cost_of_a_slide() {
    let a = node(vec![1, 0, 3, 2]);
    let b = node(vec![1, 2, 3, 0]);
    assert_eq!(default_step_cost(2, &a, &b), 1);
    let c = node(vec![1, 2, 3, 4, 5, 6, 7, 8, 0]);
    let d = node(vec![0, 2, 3, 4, 5, 6, 7, 8, 1]);
    assert_eq!(default_step_cost(3, &c, &d), 4);
}

#[test]
fn heuristic_is_blank_distance() {
    let pz = Puzzle { board_side: 3, goal: is_goal_creator(8) };
    assert_eq!(pz.heuristic(&node(vec![0, 1, 2, 3, 4, 5, 6, 7, 8])), 4);
    assert_eq!(pz.heuristic(&node(vec![1, 2, 3, 4, 5, 6, 7, 8, 0])), 0);
    let pz = Puzzle { board_side: 3, goal: is_goal_creator(4) };
    assert_eq!(pz.heuristic(&node(vec![1, 0, 2, 3, 4, 5, 6, 7, 8])), 1);
}

#[test]
fn vectors_match() {
    assert!(do_vecs_match(&vec![1, 2, 3], &vec![1, 2, 3]));
    assert!(!do_vecs_match(&vec![1, 2, 3], &vec![1, 3, 2]));
    assert!(!do_vecs_match(&vec![1, 2], &vec![1, 2, 3]));
    assert!(do_vecs_match(&vec![], &vec![]));
}

#[test]
fn node_in_path() {
    let path = vec![node(vec![1, 0, 3, 2]), node(vec![1, 2, 3, 0])];
    assert!(is_node_in_path(&node(vec![1, 2, 3, 0]), &path));
    assert!(!is_node_in_path(&node(vec![0, 1, 3, 2]), &path));
    assert!(!is_node_in_path(&node(vec![1, 0, 3, 2]), &Vec::new()));
}

#[test]
fn goal_predicate() {
    let g = is_goal_creator(3);
    assert!(g.is_goal(&Some(node(vec![1, 2, 3, 0]))));
    assert!(!g.is_goal(&Some(node(vec![1, 3, 2, 0]))));
    assert!(!g.is_goal(&Some(node(vec![1, 2, 0, 3]))));
    assert!(!g.is_goal(&None));
    let g = is_goal_creator(0);
    assert!(g.matches_board(&vec![0, 1, 2, 3]));
    assert!(!g.matches_board(&vec![1, 0, 2, 3]));
    let g = is_goal_creator(1);
    assert!(g.matches_board(&vec![1, 0, 2, 3]));
    // the tiles need only ascend, as after sorting them
    assert!(g.matches_board(&vec![2, 0, 5, 9]));
}

#[test]
fn parity_precheck() {
    // pairs whose later tile is the larger, over the first three cells
    assert!(is_solvable(3, &vec![1, 0, 3, 2]));
    assert!(!is_solvable(3, &vec![1, 2, 3, 0]));
    assert!(is_solvable(3, &vec![3, 2, 1, 0]));
    assert!(is_solvable(4, &vec![1, 0, 3, 2]));
    assert!(!is_solvable(4, &vec![1, 2, 3, 0]));
    assert!(is_solvable(0, &vec![]));
}
