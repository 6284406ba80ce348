use minesweeper::board::{Board, GameError};
use minesweeper::cell::Cell;
use rand::rngs::StdRng;
use rand::SeedableRng;

fn mines_of(b: &Board) -> Vec<(usize, usize)> {
    let mut v = Vec::new();
    for y in 0..b.height() {
        for x in 0..b.width() {
            if b.cell(x, y).mine {
                v.push((x, y));
            }
        }
    }
    v
}

fn snapshot(b: &Board) -> (Vec<Cell>, bool) {
    let mut v = Vec::new();
    for y in 0..b.height() {
        for x in 0..b.width() {
            v.push(b.cell(x, y));
        }
    }
    (v, b.is_over())
}

fn neighbour_mines(b: &Board, x: usize, y: usize) -> u8 {
    let mut n = 0;
    for dy in -1i64..=1 {
        for dx in -1i64..=1 {
            if dx == 0 && dy == 0 {
                continue;
            }
            let nx = x as i64 + dx;
            let ny = y as i64 + dy;
            if nx >= 0
                && ny >= 0
                && (nx as usize) < b.width()
                && (ny as usize) < b.height()
                && b.cell(nx as usize, ny as usize).mine
            {
                n += 1;
            }
        }
    }
    n
}

#[test]
fn cell_new_is_blank_and_hidden() {
    let c = Cell::new();
    assert!(!c.mine && !c.revealed && !c.flagged);
    assert_eq!(c.adjacent, 0);
}

#[test]
fn new_places_exact_mine_count_over_seeds() {
    for seed in 0..60u64 {
        let mut rng = StdRng::seed_from_u64(seed);
        let b = Board::new(9, 9, 10, &mut rng);
        assert_eq!(b.width(), 9);
        assert_eq!(b.height(), 9);
        assert_eq!(b.mine_count(), 10);
        assert_eq!(mines_of(&b).len(), 10);
        assert!(!b.is_over());
    }
}

#[test]
fn new_draws_different_layouts() {
    let mut layouts = Vec::new();
    for seed in 0..10u64 {
        let mut rng = StdRng::seed_from_u64(seed);
        layouts.push(mines_of(&Board::new(9, 9, 10, &mut rng)));
    }
    assert!(layouts.iter().any(|l| l != &layouts[0]));
}

#[test]
fn new_same_seed_same_layout() {
    let mut r1 = StdRng::seed_from_u64(7);
    let mut r2 = StdRng::seed_from_u64(7);
    assert_eq!(mines_of(&Board::new(6, 4, 5, &mut r1)), mines_of(&Board::new(6, 4, 5, &mut r2)));
}

#[test]
fn new_nearly_full_board() {
    let mut rng = StdRng::seed_from_u64(3);
    let b = Board::new(3, 3, 8, &mut rng);
    assert_eq!(mines_of(&b).len(), 8);
}

#[test]
fn adjacency_counts_match_neighbours() {
    let mut rng = StdRng::seed_from_u64(42);
    let b = Board::new(7, 6, 12, &mut rng);
    for y in 0..6 {
        for x in 0..7 {
            let c = b.cell(x, y);
            if !c.mine {
                assert_eq!(c.adjacent, neighbour_mines(&b, x, y));
            }
        }
    }
}

#[test]
fn adjacency_fixed_layout() {
    let b = Board::with_mines(3, 3, &vec![(0, 0), (2, 0)]);
    assert_eq!(b.cell(1, 0).adjacent, 2);
    assert_eq!(b.cell(1, 1).adjacent, 2);
    assert_eq!(b.cell(0, 1).adjacent, 1);
    assert_eq!(b.cell(2, 2).adjacent, 0);
    assert_eq!(b.mine_count(), 2);
}

#[test]
fn with_mines_counts_repeated_position_once() {
    let b = Board::with_mines(4, 4, &vec![(1, 1), (1, 1), (2, 3)]);
    assert_eq!(b.mine_count(), 2);
    assert_eq!(mines_of(&b), vec![(1, 1), (2, 3)]);
}

#[test]
fn reveal_flagged_cell_is_noop() {
    let mut b = Board::with_mines(4, 4, &vec![(3, 3)]);
    assert_eq!(b.toggle_flag(1, 2), Ok(()));
    let before = snapshot(&b);
    assert_eq!(b.reveal_cell(1, 2), Ok(()));
    assert!(!b.cell(1, 2).revealed);
    assert!(b.cell(1, 2).flagged);
    assert_eq!(snapshot(&b), before);
}

#[test]
fn reveal_twice_is_idempotent() {
    let mut b = Board::with_mines(5, 5, &vec![(4, 4), (0, 4)]);
    assert_eq!(b.reveal_cell(1, 3), Ok(()));
    let once = snapshot(&b);
    assert_eq!(b.reveal_cell(1, 3), Ok(()));
    assert_eq!(snapshot(&b), once);
}

#[test]
fn flood_fill_opens_region_5x5() {
    // A wall of mines in column 3 with a gap at row 2.
    let mut b = Board::with_mines(5, 5, &vec![(3, 0), (3, 1), (3, 3), (3, 4)]);
    assert_eq!(b.reveal_cell(0, 0), Ok(()));
    for y in 0..5 {
        for x in 0..5 {
            let expect = x <= 2;
            assert_eq!(b.cell(x, y).revealed, expect, "cell ({}, {})", x, y);
        }
    }
    assert_eq!(b.cell(2, 0).adjacent, 2);
    assert_eq!(b.cell(2, 2).adjacent, 2);
    assert_eq!(b.cell(1, 2).adjacent, 0);
    assert!(!b.is_over());
    // A numbered cell behind the wall opens alone.
    assert_eq!(b.reveal_cell(4, 2), Ok(()));
    assert!(b.cell(4, 2).revealed);
    assert!(!b.cell(4, 1).revealed);
}

#[test]
fn flood_stops_at_flags() {
    let mut b = Board::with_mines(5, 1, &vec![(4, 0)]);
    assert_eq!(b.toggle_flag(1, 0), Ok(()));
    assert_eq!(b.reveal_cell(0, 0), Ok(()));
    assert!(b.cell(0, 0).revealed);
    assert!(!b.cell(1, 0).revealed);
    assert!(!b.cell(2, 0).revealed);
}

#[test]
fn reveal_numbered_cell_opens_only_it() {
    let mut b = Board::with_mines(3, 3, &vec![(0, 0)]);
    assert_eq!(b.reveal_cell(1, 1), Ok(()));
    let (cells, _) = snapshot(&b);
    assert_eq!(cells.iter().filter(|c| c.revealed).count(), 1);
}

#[test]
fn mine_reveal_ends_game() {
    let mut b = Board::with_mines(3, 3, &vec![(1, 1)]);
    assert_eq!(b.reveal_cell(1, 1), Ok(()));
    assert!(b.is_over());
    let (cells, _) = snapshot(&b);
    assert_eq!(cells.iter().filter(|c| c.revealed).count(), 1);
    assert!(b.cell(1, 1).revealed);
}

#[test]
fn win_detection_ignores_flags() {
    let mut b = Board::with_mines(2, 2, &vec![(0, 0)]);
    assert!(!b.all_safe_cells_revealed());
    assert_eq!(b.toggle_flag(0, 0), Ok(()));
    assert!(!b.all_safe_cells_revealed());
    assert_eq!(b.reveal_cell(1, 0), Ok(()));
    assert!(!b.all_safe_cells_revealed());
    assert_eq!(b.reveal_cell(0, 1), Ok(()));
    assert!(!b.all_safe_cells_revealed());
    assert_eq!(b.reveal_cell(1, 1), Ok(()));
    assert!(b.all_safe_cells_revealed());
    assert_eq!(b.toggle_flag(0, 0), Ok(()));
    assert!(b.all_safe_cells_revealed());
    assert!(!b.is_over());
}

#[test]
fn out_of_bounds_moves_change_nothing() {
    let mut b = Board::with_mines(4, 3, &vec![(2, 2)]);
    let before = snapshot(&b);
    for (x, y) in [(4, 0), (0, 3), (usize::MAX, 0), (0, usize::MAX), (usize::MAX, usize::MAX)] {
        assert_eq!(b.reveal_cell(x, y), Err(GameError::OutOfBounds));
        assert_eq!(b.toggle_flag(x, y), Err(GameError::OutOfBounds));
        assert_eq!(snapshot(&b), before);
    }
}

#[test]
fn toggle_flag_twice_restores() {
    let mut b = Board::with_mines(3, 3, &vec![(2, 2)]);
    assert_eq!(b.toggle_flag(0, 1), Ok(()));
    assert!(b.cell(0, 1).flagged);
    assert_eq!(b.toggle_flag(0, 1), Ok(()));
    assert!(!b.cell(0, 1).flagged);
}

#[test]
fn toggle_flag_on_revealed_cell_is_noop() {
    let mut b = Board::with_mines(3, 3, &vec![(2, 2)]);
    assert_eq!(b.reveal_cell(1, 1), Ok(()));
    assert_eq!(b.toggle_flag(1, 1), Ok(()));
    assert!(!b.cell(1, 1).flagged);
}

#[test]
fn end_to_end_three_by_three() {
    let mut b = Board::with_mines(3, 3, &vec![(2, 2)]);
    assert_eq!(b.reveal_cell(0, 0), Ok(()));
    for y in 0..3 {
        for x in 0..3 {
            assert_eq!(b.cell(x, y).revealed, (x, y) != (2, 2));
        }
    }
    assert!(b.all_safe_cells_revealed());
    assert!(!b.is_over());
}

#[test]
fn symbols_follow_cell_state() {
    let mut b = Board::with_mines(3, 1, &vec![(0, 0)]);
    assert_eq!(b.cell(1, 0).symbol(), '#');
    assert_eq!(b.toggle_flag(2, 0), Ok(()));
    assert_eq!(b.cell(2, 0).symbol(), 'F');
    assert_eq!(b.reveal_cell(1, 0), Ok(()));
    assert_eq!(b.cell(1, 0).symbol(), '1');
    assert_eq!(b.toggle_flag(2, 0), Ok(()));
    assert_eq!(b.reveal_cell(2, 0), Ok(()));
    assert_eq!(b.cell(2, 0).symbol(), ' ');
    assert_eq!(b.reveal_cell(0, 0), Ok(()));
    assert_eq!(b.cell(0, 0).symbol(), '*');
}

#[test]
fn with_draws_places_by_rank_among_free_cells() {
    let b = Board::with_draws(2, 2, &vec![3, 0, 0]);
    assert_eq!(b.mine_count(), 3);
    assert_eq!(mines_of(&b), vec![(0, 0), (1, 0), (1, 1)]);
    let b = Board::with_draws(4, 2, &vec![5, 5]);
    assert_eq!(mines_of(&b), vec![(1, 1), (2, 1)]);
}

#[test]
fn end_to_end_three_by_three_from_draws() {
    let mut b = Board::with_draws(3, 3, &vec![8]);
    assert_eq!(mines_of(&b), vec![(2, 2)]);
    assert_eq!(b.reveal_cell(0, 0), Ok(()));
    assert!(b.all_safe_cells_revealed());
    assert!(!b.is_over());
    assert!(!b.cell(2, 2).revealed);
}
