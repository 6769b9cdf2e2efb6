use minesweeper::game::{GameError, Minesweeper};
use minesweeper::grid::Cell;

fn layout(width: u8, height: u8, mines: &[(u8, u8)]) -> Vec<bool> {
    let total = (width as usize) * (height as usize);
    let mut v = vec![false; total];
    for &(x, y) in mines {
        v[(y as usize) * (width as usize) + (x as usize)] = true;
    }
    v
}

fn count_mines(g: &Minesweeper) -> usize {
    let mut n = 0;
    for y in 0..g.height() {
        for x in 0..g.width() {
            if matches!(g.cell(x, y).unwrap(), Cell::Mine) {
                n += 1;
            }
        }
    }
    n
}

#[test]
fn random_board_has_exact_mine_count() {
    let g = Minesweeper::new(8, 8, 10).unwrap();
    assert_eq!(g.number_of_mines(), 10);
    assert_eq!(count_mines(&g), 10);
    assert!(!g.game_over());
    assert!(!g.win());
    assert_eq!(g.cursor(), (0, 0));
}

#[test]
fn random_board_adjacency_counts_match() {
    let g = Minesweeper::new(9, 7, 12).unwrap();
    for y in 0..7u8 {
        for x in 0..9u8 {
            match g.cell(x, y).unwrap() {
                Cell::Mine => {}
                Cell::Empty(n) => {
                    let mut expected = 0u8;
                    for dy in -1i16..=1 {
                        for dx in -1i16..=1 {
                            if dx == 0 && dy == 0 {
                                continue;
                            }
                            let nx = x as i16 + dx;
                            let ny = y as i16 + dy;
                            if nx >= 0 && nx < 9 && ny >= 0 && ny < 7 {
                                if matches!(g.cell(nx as u8, ny as u8).unwrap(), Cell::Mine) {
                                    expected += 1;
                                }
                            }
                        }
                    }
                    assert_eq!(n, expected, "cell ({}, {})", x, y);
                }
            }
        }
    }
}

#[test]
fn given_layout_adjacency_example() {
    // a 3x3 board with mines at (0,0) and (2,2) only
    let g = Minesweeper::with_mines(3, 3, &layout(3, 3, &[(0, 0), (2, 2)])).unwrap();
    assert_eq!(g.number_of_mines(), 2);
    assert_eq!(g.cell(1, 1).unwrap(), Cell::Empty(2));
    assert_eq!(g.cell(0, 1).unwrap(), Cell::Empty(1));
    assert_eq!(g.cell(1, 0).unwrap(), Cell::Empty(1));
    assert_eq!(g.cell(2, 0).unwrap(), Cell::Empty(0));
    assert!(matches!(g.cell(0, 0).unwrap(), Cell::Mine));
    assert!(matches!(g.cell(2, 2).unwrap(), Cell::Mine));
}

#[test]
fn revealing_positive_cell_does_not_cascade() {
    let mut g = Minesweeper::with_mines(3, 3, &layout(3, 3, &[(0, 0), (2, 2)])).unwrap();
    g.reveal_cell(1, 1).unwrap();
    for y in 0..3u8 {
        for x in 0..3u8 {
            let expected = x == 1 && y == 1;
            assert_eq!(g.is_revealed(x, y).unwrap(), expected);
        }
    }
    assert!(!g.game_over());
}

#[test]
fn empty_board_cascade_reveals_everything() {
    // a 10x10 board with 0 mines: one reveal uncovers all 100 cells
    let mut g = Minesweeper::new(10, 10, 0).unwrap();
    g.reveal_cell(0, 0).unwrap();
    for y in 0..10u8 {
        for x in 0..10u8 {
            assert!(g.is_revealed(x, y).unwrap());
        }
    }
    assert!(!g.game_over());
}

#[test]
fn cascade_stops_at_positive_border() {
    let mut g = Minesweeper::with_mines(3, 3, &layout(3, 3, &[(2, 2)])).unwrap();
    g.reveal_cell(0, 0).unwrap();
    for y in 0..3u8 {
        for x in 0..3u8 {
            let expected = !(x == 2 && y == 2);
            assert_eq!(g.is_revealed(x, y).unwrap(), expected, "cell ({}, {})", x, y);
        }
    }
    assert!(!g.game_over());
}

#[test]
fn full_mine_count_is_rejected_not_hung() {
    // number_of_mines == width * height must fail fast
    assert_eq!(
        Minesweeper::new(3, 3, 9).unwrap_err(),
        GameError::InvalidConfiguration
    );
}

#[test]
fn oversized_mine_count_is_rejected() {
    assert_eq!(
        Minesweeper::new(4, 4, 20).unwrap_err(),
        GameError::InvalidConfiguration
    );
}

#[test]
fn zero_sized_board_is_rejected() {
    assert_eq!(
        Minesweeper::new(0, 5, 0).unwrap_err(),
        GameError::InvalidConfiguration
    );
    assert_eq!(
        Minesweeper::new(5, 0, 0).unwrap_err(),
        GameError::InvalidConfiguration
    );
}

#[test]
fn layout_with_wrong_dimensions_is_rejected() {
    let v = vec![false; 8];
    assert_eq!(
        Minesweeper::with_mines(3, 3, &v).unwrap_err(),
        GameError::InvalidConfiguration
    );
}

#[test]
fn layout_full_of_mines_is_rejected() {
    let v = vec![true; 9];
    assert_eq!(
        Minesweeper::with_mines(3, 3, &v).unwrap_err(),
        GameError::InvalidConfiguration
    );
}
