use ng_minesweeper::hint::Hint;
use ng_minesweeper::solver::{ResultState, Solver};

fn sorted_result(s: &Solver) -> Vec<(usize, ResultState)> {
    let mut r = s.result();
    r.sort_by_key(|e| e.0);
    r
}

#[test]
fn all_mines_resolved() {
    let mut s = Solver::default();
    s.add_hint(Hint::new(vec![0, 1, 2], 3));
    assert_eq!(
        sorted_result(&s),
        vec![
            (0, ResultState::Danger),
            (1, ResultState::Danger),
            (2, ResultState::Danger),
        ]
    );
}

#[test]
fn all_safe_resolved() {
    let mut s = Solver::default();
    s.add_hint(Hint::new(vec![0, 1, 2], 0));
    assert_eq!(
        sorted_result(&s),
        vec![
            (0, ResultState::Safe),
            (1, ResultState::Safe),
            (2, ResultState::Safe),
        ]
    );
}

#[test]
fn add_hint_idempotent() {
    let mut once = Solver::default();
    once.add_hint(Hint::new(vec![0, 1], 1));
    once.add_hint(Hint::new(vec![1, 2], 1));
    let mut twice = Solver::default();
    twice.add_hint(Hint::new(vec![0, 1], 1));
    twice.add_hint(Hint::new(vec![1, 2], 1));
    twice.add_hint(Hint::new(vec![1, 2], 1));
    assert_eq!(sorted_result(&once), sorted_result(&twice));
}

#[test]
fn add_hint_idempotent_atomic() {
    let mut once = Solver::default();
    once.add_hint(Hint::new(vec![5], 1));
    let mut twice = Solver::default();
    twice.add_hint(Hint::new(vec![5], 1));
    twice.add_hint(Hint::new(vec![5], 1));
    assert_eq!(sorted_result(&once), sorted_result(&twice));
}

#[test]
fn subset_difference_deduction() {
    // The classic adjacent "1-1" shape: the smaller region already holds
    // the mine, so the rest of the larger region is safe.
    let mut s = Solver::default();
    s.add_hint(Hint::new(vec![0, 1], 1));
    s.add_hint(Hint::new(vec![0, 1, 2], 1));
    let r = sorted_result(&s);
    assert!(r.contains(&(2, ResultState::Safe)));
}

#[test]
fn overlap_with_known_safe_square() {
    // Two overlapping one-mine regions plus a safe square in the overlap:
    // the safe square is resolved, the rest stays open.
    let mut s = Solver::default();
    s.add_hint(Hint::new(vec![0, 1, 2], 1));
    s.add_hint(Hint::new(vec![1, 2, 3], 1));
    s.add_hint(Hint::new(vec![1], 0));
    let r = sorted_result(&s);
    assert!(r.contains(&(1, ResultState::Safe)));
    assert!(!r.contains(&(0, ResultState::Danger)));
    assert!(!r.contains(&(0, ResultState::Safe)));
}

#[test]
fn intersection_decomposition_resolves_overlap() {
    // A two-mine region overlapping a one-mine region: both sides force
    // exactly one mine into the overlap, which splits off as its own fact.
    let mut s = Solver::default();
    s.add_hint(Hint::new(vec![0, 1], 2));
    s.add_hint(Hint::new(vec![1, 2], 1));
    let r = sorted_result(&s);
    assert_eq!(
        r,
        vec![
            (0, ResultState::Danger),
            (1, ResultState::Danger),
            (2, ResultState::Safe),
        ]
    );
}

#[test]
fn isolated_atom_resolves_on_existing_base() {
    let mut s = Solver::default();
    s.add_hint(Hint::new(vec![0, 1], 1));
    s.add_hint(Hint::new(vec![5], 0));
    let r = sorted_result(&s);
    assert!(r.contains(&(5, ResultState::Safe)));
}
