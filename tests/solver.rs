use sliding_puzzle::driver::{ida_star, ida_star_with_ceiling, solve_puzzle, IdaResult, SearchFailure};
use sliding_puzzle::geometry::{get_zero_index, is_valid_board};
use sliding_puzzle::goal::is_goal_creator;
use sliding_puzzle::moves::{get_move_index, BoardMove};
use sliding_puzzle::node::{get_successors, PuzzleNode};
use sliding_puzzle::search::{search, Puzzle};

fn root(board: Vec<u32>) -> PuzzleNode {
    PuzzleNode { cost: 0, board, path_to_puzzle_node: Vec::new() }
}

fn move_of(label: &str) -> BoardMove {
    match label {
        "up" => BoardMove::Up,
        "right" => BoardMove::Right,
        "down" => BoardMove::Down,
        "left" => BoardMove::Left,
        other => panic!("unknown label {}", other),
    }
}

/// Plays the labels from `board`; panics on a slide off the board.
fn replay(side: u32, board: &[u32], labels: &[String]) -> Vec<Vec<u32>> {
    let mut states = vec![board.to_vec()];
    let mut current = board.to_vec();
    for label in labels {
        let z = get_zero_index(&current);
        let j = get_move_index(side, z, &move_of(label));
        assert!(j < current.len(), "slide {} leaves the board", label);
        current[z] = current[j];
        current[j] = 0;
        states.push(current.clone());
    }
    states
}

fn solved(result: Option<Result<IdaResult, SearchFailure>>) -> IdaResult {
    match result {
        Some(Ok(r)) => r,
        _ => panic!("no solution"),
    }
}

fn check_solution(side: u32, goal: usize, board: Vec<u32>) -> IdaResult {
    let size = side * side - 1;
    let result = solved(solve_puzzle(size, goal as i32, board.clone()));
    let states = replay(side, &board, &result.path);
    let last = states.last().unwrap().clone();
    let g = is_goal_creator(goal);
    assert!(g.matches_board(&last));
    for a in 0..states.len() {
        for b in a + 1..states.len() {
            assert_ne!(states[a], states[b]);
        }
    }
    assert!(!g.matches_board(&board));
    // the threshold is the goal's path cost: its moves, plus an estimate of zero
    assert_eq!(result.threshold as usize, result.path.len());
    result
}

#[test]
fn three_puzzle_one_move() {
    let result = solved(solve_puzzle(3, 3, vec![1, 0, 3, 2]));
    assert_eq!(result.path, vec!["up".to_string()]);
    assert_eq!(result.threshold, 1);
}

#[test]
fn three_puzzle_through_ida_star() {
    let pz = Puzzle { board_side: 2, goal: is_goal_creator(3) };
    let result = ida_star(&pz, root(vec![1, 0, 3, 2])).ok().unwrap();
    assert_eq!(result.path, vec!["up".to_string()]);
    assert_eq!(result.threshold, 1);
}

#[test]
fn already_solved_board() {
    // the threshold is the goal's path cost plus estimate: zero here
    let result = solved(solve_puzzle(3, 3, vec![1, 2, 3, 0]));
    assert!(result.path.is_empty());
    assert_eq!(result.threshold, 0);
    let result = solved(solve_puzzle(8, -1, vec![1, 2, 3, 4, 5, 6, 7, 8, 0]));
    assert!(result.path.is_empty());
    assert_eq!(result.threshold, 0);
}

#[test]
fn eight_puzzle_two_moves() {
    let result = solved(solve_puzzle(8, -1, vec![1, 2, 3, 4, 5, 6, 0, 7, 8]));
    assert_eq!(result.path, vec!["left".to_string(), "left".to_string()]);
    assert_eq!(result.threshold, 2);
}

#[test]
fn eight_puzzle_solution_replays_to_goal() {
    check_solution(3, 8, vec![0, 1, 3, 4, 2, 5, 7, 8, 6]);
}

#[test]
fn eight_puzzle_other_goal_cell() {
    // blank belongs in the top-left corner
    check_solution(3, 0, vec![1, 2, 0, 3, 4, 5, 6, 7, 8]);
}

#[test]
fn three_puzzle_every_blank_cell() {
    check_solution(2, 3, vec![1, 2, 0, 3]);
    check_solution(2, 0, vec![1, 0, 2, 3]);
}

#[test]
fn driver_is_deterministic() {
    let a = solved(solve_puzzle(8, 8, vec![0, 1, 3, 4, 2, 5, 7, 8, 6]));
    let b = solved(solve_puzzle(8, 8, vec![0, 1, 3, 4, 2, 5, 7, 8, 6]));
    assert_eq!(a.path, b.path);
    assert_eq!(a.threshold, b.threshold);
}

#[test]
fn unsolvable_board_does_not_converge() {
    let result = solve_puzzle(3, 3, vec![2, 1, 3, 0]);
    assert!(matches!(result, Some(Err(SearchFailure::DidNotConverge))));
}

#[test]
fn malformed_inputs_are_refused() {
    // two blanks
    assert!(solve_puzzle(3, 3, vec![0, 1, 0, 2]).is_none());
    // wrong length
    assert!(solve_puzzle(3, 3, vec![1, 2, 0]).is_none());
    // goal off the board
    assert!(solve_puzzle(3, 4, vec![1, 2, 3, 0]).is_none());
    assert!(solve_puzzle(3, -2, vec![1, 2, 3, 0]).is_none());
    // a single cell is no puzzle
    assert!(solve_puzzle(0, 0, vec![0]).is_none());
}

#[test]
fn search_prunes_above_threshold() {
    let pz = Puzzle { board_side: 3, goal: is_goal_creator(8) };
    let mut path = vec![root(vec![1, 2, 3, 4, 5, 6, 0, 7, 8])];
    let r = search(&pz, &mut path, 0, 1);
    assert!(r.node.is_none());
    assert_eq!(r.cost, 2);
    assert_eq!(path.len(), 1);
    let r = search(&pz, &mut path, 0, 2);
    let found = r.node.unwrap();
    assert_eq!(found.board, vec![1, 2, 3, 4, 5, 6, 7, 8, 0]);
    assert_eq!(found.path_to_puzzle_node, vec![BoardMove::Left, BoardMove::Left]);
    assert_eq!(r.cost, 2);
    assert_eq!(path.len(), 3);
}

#[test]
fn search_reports_smallest_overrun() {
    let pz = Puzzle { board_side: 3, goal: is_goal_creator(8) };
    // blank four slides from its goal cell; no board four slides away is
    // solved, and a slide away from the goal cell raises the bound by two
    let mut path = vec![root(vec![0, 1, 2, 3, 4, 5, 6, 7, 8])];
    let r = search(&pz, &mut path, 0, 4);
    assert!(r.node.is_none());
    assert_eq!(r.cost, 6);
    assert_eq!(path.len(), 1);
}

#[test]
fn side_two_successors() {
    // blank in each corner of a 2x2 board has exactly two slides
    for z in 0..4usize {
        let mut board = vec![1, 2, 3];
        board.insert(z, 0);
        let succ = get_successors(2, &root(board.clone()));
        assert_eq!(succ.len(), 2);
        for s in &succ {
            assert!(is_valid_board(2, &s.board));
            assert_eq!(s.cost, 1);
            assert_eq!(s.path_to_puzzle_node.len(), 1);
        }
    }
}

#[test]
fn search_cut_off_at_entry() {
    let pz = Puzzle { board_side: 2, goal: is_goal_creator(3) };
    let mut path = vec![root(vec![0, 1, 2, 3])];
    let r = search(&pz, &mut path, 10, 3);
    assert!(r.node.is_none());
    // cost so far plus the blank's distance of two
    assert_eq!(r.cost, 12);
    assert_eq!(path.len(), 1);
}

#[test]
fn search_keeps_winning_chain() {
    let pz = Puzzle { board_side: 2, goal: is_goal_creator(3) };
    let mut path = vec![root(vec![1, 0, 3, 2])];
    let r = search(&pz, &mut path, 0, 1);
    let found = r.node.unwrap();
    assert_eq!(found.board, vec![1, 2, 3, 0]);
    assert_eq!(path.len(), 2);
    assert_eq!(path[0].board, vec![1, 0, 3, 2]);
    assert_eq!(path[1].board, vec![1, 2, 3, 0]);
    assert_eq!(r.cost, 1);
}

#[test]
fn search_at_goal_leaves_path_alone() {
    let pz = Puzzle { board_side: 2, goal: is_goal_creator(3) };
    let mut path = vec![root(vec![1, 0, 3, 2]), root(vec![1, 2, 3, 0])];
    let r = search(&pz, &mut path, 5, 5);
    assert_eq!(r.node.unwrap().board, vec![1, 2, 3, 0]);
    assert_eq!(r.cost, 5);
    assert_eq!(path.len(), 2);
}

#[test]
fn ceiling_of_the_callers_choice() {
    let pz = Puzzle { board_side: 3, goal: is_goal_creator(8) };
    // the goal is two slides away, found once the threshold reaches two
    let r = ida_star_with_ceiling(&pz, root(vec![1, 2, 3, 4, 5, 6, 0, 7, 8]), 1);
    assert!(matches!(r, Err(SearchFailure::DidNotConverge)));
    let r = ida_star_with_ceiling(&pz, root(vec![1, 2, 3, 4, 5, 6, 0, 7, 8]), 2).ok().unwrap();
    assert_eq!(r.path, vec!["left".to_string(), "left".to_string()]);
    assert_eq!(r.threshold, 2);
}
