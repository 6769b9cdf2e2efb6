use minesweeper::game::{GameError, Minesweeper};

fn layout(width: u8, height: u8, mines: &[(u8, u8)]) -> Vec<bool> {
    let total = (width as usize) * (height as usize);
    let mut v = vec![false; total];
    for &(x, y) in mines {
        v[(y as usize) * (width as usize) + (x as usize)] = true;
    }
    v
}

fn snapshot(g: &Minesweeper) -> (Vec<bool>, Vec<bool>, bool, bool, (u8, u8)) {
    let mut revealed = Vec::new();
    let mut flagged = Vec::new();
    for y in 0..g.height() {
        for x in 0..g.width() {
            revealed.push(g.is_revealed(x, y).unwrap());
            flagged.push(g.is_flagged(x, y).unwrap());
        }
    }
    (revealed, flagged, g.game_over(), g.win(), g.cursor())
}

#[test]
fn reveal_is_idempotent() {
    let mut g = Minesweeper::with_mines(4, 4, &layout(4, 4, &[(3, 3)])).unwrap();
    g.reveal_cell(0, 0).unwrap();
    let once = snapshot(&g);
    g.reveal_cell(0, 0).unwrap();
    let twice = snapshot(&g);
    assert_eq!(once, twice);
}

#[test]
fn revealing_a_mine_ends_the_game_without_cascade() {
    let mut g = Minesweeper::with_mines(3, 3, &layout(3, 3, &[(1, 1)])).unwrap();
    g.reveal_cell(1, 1).unwrap();
    assert!(g.game_over());
    assert!(!g.win());
    for y in 0..3u8 {
        for x in 0..3u8 {
            let expected = x == 1 && y == 1;
            assert_eq!(g.is_revealed(x, y).unwrap(), expected);
        }
    }
}

#[test]
fn flagged_cell_cannot_be_revealed() {
    let mut g = Minesweeper::with_mines(3, 3, &layout(3, 3, &[(0, 0), (1, 1)])).unwrap();
    g.toggle_flag(1, 1).unwrap();
    g.reveal_cell(1, 1).unwrap();
    assert!(!g.is_revealed(1, 1).unwrap());
    assert!(!g.game_over());
    assert!(!g.win());
}

#[test]
fn toggle_flag_sets_and_clears() {
    let mut g = Minesweeper::with_mines(3, 3, &layout(3, 3, &[(0, 0), (2, 2)])).unwrap();
    g.toggle_flag(1, 0).unwrap();
    assert!(g.is_flagged(1, 0).unwrap());
    g.toggle_flag(1, 0).unwrap();
    assert!(!g.is_flagged(1, 0).unwrap());
}

#[test]
fn toggle_flag_on_revealed_cell_changes_nothing() {
    let mut g = Minesweeper::with_mines(3, 3, &layout(3, 3, &[(0, 0), (2, 2)])).unwrap();
    g.reveal_cell(1, 1).unwrap();
    let before = snapshot(&g);
    g.toggle_flag(1, 1).unwrap();
    let after = snapshot(&g);
    assert!(!g.is_flagged(1, 1).unwrap());
    assert_eq!(before.1, after.1);
}

#[test]
fn flagging_all_mines_wins() {
    let mut g = Minesweeper::with_mines(3, 3, &layout(3, 3, &[(0, 0), (2, 2)])).unwrap();
    g.toggle_flag(0, 0).unwrap();
    assert!(!g.win());
    g.toggle_flag(2, 2).unwrap();
    assert!(g.win());
    assert!(g.game_over());
}

#[test]
fn stray_flags_do_not_block_the_count_only_win() {
    // the win rule counts correctly flagged mines only
    let mut g = Minesweeper::with_mines(3, 3, &layout(3, 3, &[(0, 0), (2, 2)])).unwrap();
    g.toggle_flag(1, 1).unwrap();
    g.toggle_flag(0, 0).unwrap();
    assert!(!g.win());
    g.toggle_flag(2, 2).unwrap();
    assert!(g.win());
    assert!(g.game_over());
}

#[test]
fn mineless_board_wins_on_first_flag_command() {
    // with zero mines the recount matches immediately, even on a no-op
    let mut g = Minesweeper::new(2, 2, 0).unwrap();
    g.reveal_cell(0, 0).unwrap();
    g.toggle_flag(0, 0).unwrap();
    assert!(g.win());
    assert!(g.game_over());
}

#[test]
fn move_cursor_stores_the_coordinate() {
    let mut g = Minesweeper::new(10, 10, 10).unwrap();
    g.move_cursor(5, 5).unwrap();
    assert_eq!(g.cursor(), (5, 5));
    g.move_cursor(0, 9).unwrap();
    assert_eq!(g.cursor(), (0, 9));
}

#[test]
fn out_of_bounds_coordinates_are_rejected() {
    let mut g = Minesweeper::new(4, 6, 3).unwrap();
    assert_eq!(g.reveal_cell(4, 0).unwrap_err(), GameError::OutOfBounds);
    assert_eq!(g.reveal_cell(0, 6).unwrap_err(), GameError::OutOfBounds);
    assert_eq!(g.toggle_flag(9, 9).unwrap_err(), GameError::OutOfBounds);
    assert_eq!(g.move_cursor(4, 2).unwrap_err(), GameError::OutOfBounds);
    assert_eq!(g.cell(4, 0).unwrap_err(), GameError::OutOfBounds);
    assert_eq!(g.is_revealed(0, 6).unwrap_err(), GameError::OutOfBounds);
    assert_eq!(g.is_flagged(4, 6).unwrap_err(), GameError::OutOfBounds);
}

#[test]
fn reveal_does_not_touch_flags_or_win() {
    let mut g = Minesweeper::with_mines(4, 4, &layout(4, 4, &[(3, 0)])).unwrap();
    g.toggle_flag(3, 0).unwrap();
    g.reveal_cell(0, 3).unwrap();
    assert!(g.is_flagged(3, 0).unwrap());
}
