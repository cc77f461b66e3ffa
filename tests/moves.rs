use ring_puzzle::moves::{legal_moves, path_length, run_step};
use ring_puzzle::script::{run, run1, write_path};
use ring_puzzle::search::is_solved;
use ring_puzzle::table::{mask_state, state_key};

const GOAL: [u8; 14] = *b"bricklehampton";

#[test]
fn rotations_shift_the_ring() {
    assert_eq!(&run_step(GOAL, -1), b"ricklehamptonb");
    assert_eq!(&run_step(GOAL, 1), b"nbricklehampto");
    assert_eq!(&run_step(GOAL, -6), b"ehamptonbrickl");
    assert_eq!(&run_step(GOAL, 6), b"amptonbrickleh");
}

#[test]
fn flip_swaps_the_first_four() {
    assert_eq!(&run_step(GOAL, 0), b"cirbklehampton");
}

#[test]
fn flip_undoes_itself() {
    let once = run_step(GOAL, 0);
    assert_ne!(once, GOAL);
    assert_eq!(run_step(once, 0), GOAL);
}

#[test]
fn rotation_is_undone_by_its_opposite() {
    for k in 1..=6 {
        assert_eq!(run_step(run_step(GOAL, k), -k), GOAL);
        assert_eq!(run_step(run_step(GOAL, -k), k), GOAL);
    }
}

#[test]
fn moves_keep_the_symbols() {
    let mut state = GOAL;
    for step in [0, 3, 0, -5, 0, 6, 0, -1] {
        state = run_step(state, step);
        let mut a = state.to_vec();
        let mut b = GOAL.to_vec();
        a.sort();
        b.sort();
        assert_eq!(a, b);
    }
}

#[test]
fn path_costs() {
    assert_eq!(path_length(&vec![]), 0);
    assert_eq!(path_length(&vec![0, -3, 0, 2]), 7);
    assert_eq!(path_length(&vec![6, 0, -6]), 13);
}

#[test]
fn moves_take_turns() {
    assert_eq!(legal_moves(&vec![]), vec![-6, -5, -4, -3, -2, -1, 0, 1, 2, 3, 4, 5, 6]);
    assert_eq!(legal_moves(&vec![0]), vec![-6, -5, -4, -3, -2, -1, 1, 2, 3, 4, 5, 6]);
    assert_eq!(legal_moves(&vec![0, -4]), vec![0]);
}

#[test]
fn paths_render_as_scripts() {
    assert_eq!(write_path(&vec![]), b"".to_vec());
    assert_eq!(write_path(&vec![-2, 0, 3]), b"ll!rrr".to_vec());
    assert_eq!(write_path(&vec![0]), b"!".to_vec());
}

#[test]
fn scripts_replay_like_paths() {
    let path = vec![-2, 0, 3, 0];
    let mut by_script = GOAL;
    run(&mut by_script, write_path(&path));
    let mut by_moves = GOAL;
    for step in path {
        by_moves = run_step(by_moves, step);
    }
    assert_eq!(by_script, by_moves);
}

#[test]
fn unknown_script_symbols_do_nothing() {
    let mut state = GOAL;
    run1(&mut state, b'x');
    assert_eq!(state, GOAL);
    run1(&mut state, b'l');
    assert_eq!(&state, b"ricklehamptonb");
    run1(&mut state, b'r');
    assert_eq!(state, GOAL);
}

#[test]
fn masking_hides_the_masked_symbols() {
    assert_eq!(&mask_state(&GOAL, b"hampton"), b"brickle_______");
    assert_eq!(&mask_state(b"tlibcheaomkpnr", b"hampton"), b"_libc_e___k__r");
}

#[test]
fn keys_pack_one_byte_per_slot() {
    let key = state_key(&GOAL);
    assert_eq!(key.to_be_bytes()[2..], GOAL[..]);
    assert_ne!(state_key(&run_step(GOAL, 1)), key);
}

#[test]
fn solved_only_at_the_goal() {
    assert!(is_solved(&GOAL, &GOAL));
    assert!(!is_solved(&run_step(GOAL, 0), &GOAL));
}
