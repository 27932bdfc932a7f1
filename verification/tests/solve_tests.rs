use grid_solver::action::{Action, ActionSequence};
use grid_solver::board::Board;
use grid_solver::marks::ShortcutCache;
use grid_solver::solve::solve_board;
use std::collections::HashSet;

const ALL: [Action; 4] = [Action::UP, Action::DOWN, Action::LEFT, Action::RIGHT];

fn replay(board: &Board, moves: &[Action]) -> Option<Board> {
    let mut current = *board;
    for m in moves {
        current = current.action(*m)?;
    }
    Some(current)
}

fn plain_search_length(board: &Board, max_moves: usize) -> Option<usize> {
    if board.is_won() {
        return Some(0);
    }
    let mut seen: HashSet<Board> = HashSet::new();
    seen.insert(*board);
    let mut frontier = vec![*board];
    for round in 1..=max_moves {
        let mut next = Vec::new();
        for b in frontier.iter() {
            for a in ALL {
                if let Some(n) = b.action(a) {
                    if n.is_won() {
                        return Some(round);
                    }
                    if seen.insert(n) {
                        next.push(n);
                    }
                }
            }
        }
        frontier = next;
    }
    None
}

#[test]
fn solves_the_sample_board_with_the_fewest_moves() {
    let cache = ShortcutCache::new();
    let board: Board = "18 9 6 0|0 9 3 0|33 18 18 3|0 0 15 0".parse().unwrap();
    let solution = solve_board(&board, 20, &cache).expect("the sample board has a solution");
    let end = replay(&board, &solution).expect("every move stays on the grid");
    assert!(end.is_won());
    assert_eq!(Some(solution.len()), plain_search_length(&board, 20));
    println!("{} moves: {:?}", solution.len(), solution);
}

#[test]
fn won_board_needs_no_moves() {
    let cache = ShortcutCache::new();
    let board: Board = "0 0 0 0|0 0 0 0|0 0 0 0|0 0 0 0".parse().unwrap();
    assert_eq!(solve_board(&board, 20, &cache), Some(vec![]));
    assert_eq!(solve_board(&board, 0, &cache), Some(vec![]));
}

#[test]
fn lost_board_has_no_solution() {
    let cache = ShortcutCache::new();
    let board: Board = "18 9 0 0|0 9 0 0|33 18 0 3|0 0 15 0".parse().unwrap();
    assert!(board.is_lost());
    assert_eq!(solve_board(&board, 6, &cache), None);
    assert_eq!(plain_search_length(&board, 6), None);
}

#[test]
fn budget_of_zero_moves_finds_nothing() {
    let cache = ShortcutCache::new();
    let board: Board = "1 1 0 0|0 0 0 0|0 0 0 0|0 0 0 0".parse().unwrap();
    assert_eq!(solve_board(&board, 0, &cache), None);
    assert_eq!(solve_board(&board, 1, &cache), Some(vec![Action::RIGHT]));
    assert_eq!(solve_board(&board, ActionSequence::MAX_LENGTH, &cache), Some(vec![Action::RIGHT]));
}
