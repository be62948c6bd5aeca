use ng_minesweeper::minesweeper::{GameState, Minesweeper, State};
use ng_minesweeper::ng_minesweeper::NGMinesweeper;

#[test]
fn open_mine_loses() {
    let mut ms = Minesweeper::new(2, 1, vec![1]);
    assert_eq!(ms.open(1, 0), Some(GameState::Lose));
}

#[test]
fn open_reveals_adjacent_count() {
    // 3x3 board, mine in the bottom-right corner.
    let mut ms = Minesweeper::new(3, 3, vec![8]);
    assert_eq!(ms.open(0, 0), None);
    let f = ms.field();
    assert!(matches!(f[0][0], Some(State::Revealed(0))));
    assert!(f[1][1].is_none());
    assert_eq!(ms.open(1, 1), None);
    let f = ms.field();
    assert!(matches!(f[1][1], Some(State::Revealed(1))));
}

#[test]
fn open_last_safe_square_wins() {
    let mut ms = Minesweeper::new(2, 1, vec![1]);
    assert_eq!(ms.open(0, 0), Some(GameState::Win));
}

#[test]
fn toggle_flag_cycles() {
    let mut ms = Minesweeper::new(2, 2, vec![3]);
    ms.toggle_flag(0, 1);
    assert!(matches!(ms.field()[1][0], Some(State::Flagged)));
    ms.toggle_flag(0, 1);
    assert!(ms.field()[1][0].is_none());
    // A revealed square cannot be flagged.
    ms.open(0, 0);
    ms.toggle_flag(0, 0);
    assert!(matches!(ms.field()[0][0], Some(State::Revealed(1))));
}

#[test]
fn all_reveal_marks_mines_and_counts() {
    let ms = Minesweeper::new(2, 2, vec![3]);
    let f = ms.all_reveal();
    assert!(matches!(f[1][1], State::Flagged));
    assert!(matches!(f[0][0], State::Revealed(1)));
    assert!(matches!(f[0][1], State::Revealed(1)));
    assert!(matches!(f[1][0], State::Revealed(1)));
}

#[test]
fn new_random_places_distinct_in_range_mines() {
    for _ in 0..20 {
        let ms = Minesweeper::new_random(4, 3, 5);
        let bombs = ms.bombs.clone();
        assert_eq!(bombs.len(), 5);
        for &b in &bombs {
            assert!(b < 12);
        }
        let mut sorted = bombs.clone();
        sorted.sort();
        sorted.dedup();
        assert_eq!(sorted.len(), 5);
    }
}

#[test]
fn solvable_from_a_zero_corner() {
    // One mine in a corner: the zero cascade from the opposite corner
    // reaches everything, and the last counts pin the mine down.
    let mut ms = Minesweeper::new(3, 3, vec![8]);
    ms.open(0, 0);
    assert!(ms.is_solvable());
}

#[test]
fn fifty_fifty_is_unsolvable() {
    // One clue covering three untouched squares: no deduction can tell
    // which of them hides the mine.
    let mut ms = Minesweeper::new(2, 2, vec![3]);
    ms.open(0, 0);
    assert!(!ms.is_solvable());
}

#[test]
fn generated_boards_avoid_start_and_stay_solvable() {
    for _ in 0..10 {
        let mut game = NGMinesweeper::new(4, 4, 2);
        let r = game.open(1, 1);
        assert!(!matches!(r, Some(GameState::Lose)));
        let board = game.minesweeper.as_ref().expect("a board was generated");
        assert!(!board.bombs.contains(&(1 + 1 * 4)));
        assert!(board.is_solvable());
    }
}

#[test]
fn ng_field_is_blank_before_first_open() {
    let game = NGMinesweeper::new(3, 2, 1);
    let f = game.field();
    assert_eq!(f.len(), 2);
    for row in &f {
        assert_eq!(row.len(), 3);
        for cell in row {
            assert!(cell.is_none());
        }
    }
    assert!(game.all_reveal().is_none());
}

#[test]
fn ng_flag_and_reveal_after_open() {
    let mut game = NGMinesweeper::new(3, 3, 1);
    game.toggle_flag(0, 0);
    assert!(game.field()[0][0].is_none());
    game.open(0, 0);
    game.toggle_flag(2, 2);
    let f = game.field();
    assert!(f[0][0].is_some());
    assert!(game.all_reveal().is_some());
}

#[test]
fn oracle_accepts_fully_revealed_board() {
    let mut ms = Minesweeper::new(2, 1, vec![1]);
    assert_eq!(ms.open(0, 0), Some(GameState::Win));
    assert!(ms.is_solvable());
}
