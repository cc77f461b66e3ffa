use ring_puzzle::moves::{legal_moves, path_length, run_step};
use ring_puzzle::script::{run, write_path};
use ring_puzzle::search::search;
use ring_puzzle::table::{build_table, estimate, lookup, PruningTable};

const GOAL: [u8; 14] = *b"bricklehampton";
const MASK: [u8; 7] = *b"hampton";

fn table() -> PruningTable {
    build_table(GOAL, MASK)
}

/// The least cost of a path from `state` to the goal, found without any
/// pruning, among paths of cost at most `budget`.
fn cheapest(state: [u8; 14], path: &mut Vec<i32>, budget: usize) -> Option<usize> {
    if state == GOAL {
        return Some(0);
    }
    let mut best: Option<usize> = None;
    for step in legal_moves(path) {
        let cost = if step == 0 { 1 } else { step.unsigned_abs() as usize };
        if cost > budget {
            continue;
        }
        path.push(step);
        if let Some(rest) = cheapest(run_step(state, step), path, budget - cost) {
            if best.map_or(true, |b| cost + rest < b) {
                best = Some(cost + rest);
            }
        }
        path.pop();
    }
    best
}

/// Every path of cost exactly `budget` from `state` to the goal.
fn all_solutions(state: [u8; 14], path: &mut Vec<i32>, budget: usize, out: &mut Vec<Vec<i32>>) {
    if budget == 0 {
        if state == GOAL {
            out.push(path.clone());
        }
        return;
    }
    for step in legal_moves(path) {
        let cost = if step == 0 { 1 } else { step.unsigned_abs() as usize };
        if cost > budget {
            continue;
        }
        path.push(step);
        all_solutions(run_step(state, step), path, budget - cost, out);
        path.pop();
    }
}

fn alternates(path: &[i32]) -> bool {
    path.windows(2).all(|w| (w[0] == 0) != (w[1] == 0))
}

#[test]
fn goal_is_solved_with_the_empty_path() {
    let t = table();
    assert_eq!(search(&t, GOAL), Some(vec![]));
}

#[test]
fn flip_then_two_right_is_solved_at_cost_three() {
    let t = table();
    let start = run_step(run_step(GOAL, 0), 2);
    let path = search(&t, start).expect("a solution");
    assert_eq!(path_length(&path), 3);
    let script = write_path(&path);
    assert_eq!(script.len(), 3);
    let mut state = start;
    run(&mut state, script);
    assert_eq!(state, GOAL);
}

#[test]
fn found_paths_alternate_and_replay_to_the_goal() {
    let t = table();
    let start = run_step(run_step(run_step(GOAL, -3), 0), 5);
    let path = search(&t, start).expect("a solution");
    assert!(alternates(&path));
    let mut state = start;
    run(&mut state, write_path(&path));
    assert_eq!(state, GOAL);
}

#[test]
fn search_cost_matches_exhaustive_search() {
    let t = table();
    for scramble in [vec![2], vec![0, -1], vec![-4, 0, 3], vec![0, 6, 0]] {
        let mut start = GOAL;
        for step in &scramble {
            start = run_step(start, *step);
        }
        let path = search(&t, start).expect("a solution");
        let best = cheapest(start, &mut vec![], path_length(&scramble)).expect("the scramble undone");
        assert_eq!(path_length(&path), best);
    }
}

#[test]
fn estimates_never_exceed_the_true_cost() {
    let t = table();
    assert_eq!(lookup(&t, GOAL), Some(0));
    assert_eq!(estimate(&t, GOAL), 0);
    for scramble in [vec![1], vec![0, 2], vec![-5, 0, 4, 0], vec![0, -2, 0, 6]] {
        let mut start = GOAL;
        for step in &scramble {
            start = run_step(start, *step);
        }
        let best = cheapest(start, &mut vec![], path_length(&scramble)).expect("the scramble undone");
        assert!(estimate(&t, start) <= best);
    }
}

#[test]
fn table_records_positions() {
    let t = table();
    assert!(t.len() > 1);
    assert_eq!(t.goal_state(), GOAL);
    assert_eq!(lookup(&t, run_step(GOAL, 0)), Some(1));
}

#[test]
fn ties_go_to_the_first_path_in_move_order() {
    let t = table();
    for scramble in [vec![0, 2], vec![3, 0, -1], vec![0, 6, 0]] {
        let mut start = GOAL;
        for step in &scramble {
            start = run_step(start, *step);
        }
        let path = search(&t, start).expect("a solution");
        let mut found = Vec::new();
        all_solutions(start, &mut vec![], path_length(&path), &mut found);
        assert_eq!(found.iter().min(), Some(&path));
    }
}
