use countdown::board::{shortest_solution, solve_board};
use countdown::ops::{apply_op, Operation, Step};
use countdown::perms::build_permutations_r;
use countdown::search::{replay, solve, try_solve};

fn step(op1: u32, op2: u32, operation: Operation) -> Step {
    Step { op1, op2, operation }
}

fn items_of(perms: Vec<Vec<u32>>) -> Vec<(Vec<u32>, Vec<Step>)> {
    perms.into_iter().map(|p| (p, vec![])).collect()
}

/// Checks that `path` is a valid derivation of `target` from some ordering
/// of `board`: some permutation replays it to completion with `target` as
/// the final value.
fn is_valid_solution(board: &Vec<u32>, target: u32, path: &Vec<Step>) -> bool {
    for p in build_permutations_r(board) {
        if let Some(fin) = replay(&p, path) {
            if fin.last() == Some(&target) {
                return true;
            }
        }
    }
    false
}

#[test]
fn permutations_of_three_in_order() {
    let out = build_permutations_r(&vec![1, 2, 3]);
    let expected: Vec<Vec<u32>> = vec![
        vec![1, 2, 3],
        vec![1, 3, 2],
        vec![2, 1, 3],
        vec![2, 3, 1],
        vec![3, 1, 2],
        vec![3, 2, 1],
    ];
    assert_eq!(out, expected);
}

#[test]
fn permutations_count_and_content_with_duplicates() {
    let input: Vec<u32> = vec![1, 2, 2, 3];
    let out = build_permutations_r(&input);
    assert_eq!(out.len(), 24);
    let mut sorted_input = input.clone();
    sorted_input.sort();
    for p in &out {
        assert_eq!(p.len(), 4);
        let mut sorted = p.clone();
        sorted.sort();
        assert_eq!(sorted, sorted_input);
    }
}

#[test]
fn permutations_of_empty_and_single() {
    let empty: Vec<u32> = vec![];
    assert_eq!(build_permutations_r(&empty), vec![Vec::<u32>::new()]);
    assert_eq!(build_permutations_r(&vec![5]), vec![vec![5]]);
}

#[test]
fn apply_op_follows_applicability_rules() {
    assert_eq!(apply_op(Operation::Add, 2, 2), Some(4));
    assert_eq!(apply_op(Operation::Multiply, 6, 7), Some(42));
    assert_eq!(apply_op(Operation::Subtract, 5, 5), Some(0));
    assert_eq!(apply_op(Operation::Subtract, 3, 5), None);
    assert_eq!(apply_op(Operation::Divide, 6, 2), Some(3));
    assert_eq!(apply_op(Operation::Divide, 7, 2), None);
    assert_eq!(apply_op(Operation::Divide, 5, 0), None);
    assert_eq!(apply_op(Operation::Divide, 0, 5), Some(0));
    assert_eq!(apply_op(Operation::Add, u32::MAX, 1), None);
    assert_eq!(apply_op(Operation::Multiply, 1 << 16, 1 << 16), None);
}

#[test]
fn try_solve_forks_exactly_on_applicable_operations() {
    let ordering: Vec<u32> = vec![9];
    let path: Vec<Step> = vec![];
    let forked = try_solve(6, 2, Operation::Divide, &ordering, &path).unwrap();
    assert_eq!(forked.0, vec![9, 3]);
    assert_eq!(forked.1, vec![step(6, 2, Operation::Divide)]);
    assert!(try_solve(2, 6, Operation::Subtract, &ordering, &path).is_none());
    assert!(try_solve(6, 0, Operation::Divide, &ordering, &path).is_none());
}

#[test]
fn replay_reconstructs_a_path() {
    let path = vec![step(3, 2, Operation::Multiply), step(6, 6, Operation::Subtract)];
    let fin = replay(&vec![1, 6, 2, 3], &path).unwrap();
    assert_eq!(fin, vec![1, 0]);
    // The first step's operands must be the two most recent values.
    assert!(replay(&vec![1, 2, 3], &path).is_none());
    // An inapplicable operation stops the replay.
    assert!(replay(&vec![1, 2, 5], &vec![step(5, 2, Operation::Divide)]).is_none());
}

#[test]
fn two_twos_target_four() {
    let solutions = solve(items_of(build_permutations_r(&vec![2, 2])), 4);
    let add = vec![step(2, 2, Operation::Add)];
    let mul = vec![step(2, 2, Operation::Multiply)];
    assert_eq!(solutions, vec![add.clone(), mul.clone(), add, mul]);
    for sol in &solutions {
        for s in sol {
            assert!(!matches!(s.operation, Operation::Subtract));
            assert!(!matches!(s.operation, Operation::Divide));
        }
    }
}

#[test]
fn five_and_zero_target_five() {
    let board: Vec<u32> = vec![5, 0];
    let solutions = solve(items_of(build_permutations_r(&board)), 5);
    // The ordering [0, 5] matches the target at once with zero steps; the
    // ordering [5, 0] reaches it by adding, with the more recent 0 first.
    let zero_step: Vec<Step> = vec![];
    let add = vec![step(0, 5, Operation::Add)];
    assert_eq!(solutions, vec![zero_step, add]);
    // No divide step with a zero second operand may ever appear.
    for sol in &solutions {
        for s in sol {
            assert!(!(matches!(s.operation, Operation::Divide) && s.op2 == 0));
        }
    }
    for sol in &solutions {
        assert!(is_valid_solution(&board, 5, sol));
    }
}

#[test]
fn distinct_board_target_zero_has_only_valid_solutions() {
    let board: Vec<u32> = vec![1, 2, 3, 4, 5, 6];
    let solutions = solve(items_of(build_permutations_r(&board)), 0);
    // 0 is reachable, e.g. 2 * 3 = 6 and then 6 - 6 = 0.
    assert!(!solutions.is_empty());
    for sol in &solutions {
        assert!(is_valid_solution(&board, 0, sol));
        for s in sol {
            match s.operation {
                Operation::Subtract => assert!(s.op1 >= s.op2),
                Operation::Divide => {
                    assert!(s.op2 != 0);
                    assert_eq!(s.op1 % s.op2, 0);
                },
                Operation::Add | Operation::Multiply => {},
            }
        }
    }
}

#[test]
fn solutions_replay_to_the_target() {
    let board: Vec<u32> = vec![1, 5, 6];
    let solutions = solve(items_of(build_permutations_r(&board)), 11);
    assert!(solutions.contains(&vec![step(5, 6, Operation::Add)])
        || solutions.contains(&vec![step(6, 5, Operation::Add)]));
    for sol in &solutions {
        assert!(is_valid_solution(&board, 11, sol));
    }
}

#[test]
fn target_on_board_gives_zero_step_solution() {
    let chosen = solve_board(&vec![7, 3], 3);
    assert_eq!(chosen, Some(vec![]));
}

#[test]
fn unreachable_target_gives_empty_result() {
    let board: Vec<u32> = vec![2, 4];
    let solutions = solve(items_of(build_permutations_r(&board)), 7);
    assert!(solutions.is_empty());
    assert_eq!(solve_board(&board, 7), None);
}

#[test]
fn shortest_solution_picks_global_minimum() {
    let three = vec![
        step(2, 2, Operation::Add),
        step(4, 4, Operation::Add),
        step(8, 8, Operation::Add),
    ];
    let one = vec![step(4, 4, Operation::Multiply)];
    let two = vec![step(2, 2, Operation::Add), step(4, 4, Operation::Multiply)];
    let chosen = shortest_solution(&vec![three, one.clone(), two]).unwrap();
    assert_eq!(chosen, one);
}

#[test]
fn shortest_solution_breaks_ties_by_discovery_order() {
    let first = vec![step(2, 2, Operation::Add)];
    let second = vec![step(2, 2, Operation::Multiply)];
    let chosen = shortest_solution(&vec![first.clone(), second]).unwrap();
    assert_eq!(chosen, first);
    let no_solutions: Vec<Vec<Step>> = vec![];
    assert_eq!(shortest_solution(&no_solutions), None);
}

#[test]
fn solve_board_prefers_one_step_over_two() {
    let board: Vec<u32> = vec![2, 2, 4];
    // 2 * 4 gives 8 in one step; 2 + 2 then 4 + 4 needs two.
    let chosen = solve_board(&board, 8).unwrap();
    assert_eq!(chosen.len(), 1);
    assert!(is_valid_solution(&board, 8, &chosen));
}
