use minesweeper::{Input, MSGrid, Outcome, Slot};

/// Builds a board whose mines stand at the given `(x, y)` positions.
fn board(width: usize, height: usize, mines: &[(usize, usize)]) -> MSGrid {
    let mut mask = vec![false; width * height];
    for &(x, y) in mines {
        mask[y * width + x] = true;
    }
    MSGrid::with_mines((width, height), &mask)
}

fn move_cursor_to(grid: &mut MSGrid, x: usize, y: usize) {
    while grid.cursor().0 != x {
        grid.move_cursor_right();
    }
    while grid.cursor().1 != y {
        grid.move_cursor_down();
    }
}

#[test]
fn unseen_count_starts_at_tiles_minus_mines() {
    let grid = board(4, 3, &[(0, 0), (3, 2), (1, 1)]);
    assert_eq!(grid.num_unseen_tiles(), 4 * 3 - 3);
    assert_eq!(grid.cursor(), (0, 0));
    assert_eq!(grid.width(), 4);
    assert_eq!(grid.height(), 3);
}

#[test]
fn random_board_without_mines() {
    let grid = MSGrid::new((4, 5), 0);
    assert_eq!(grid.num_unseen_tiles(), 20);
    for y in 0..5 {
        for x in 0..4 {
            assert_eq!(grid.get((x, y)), Some(Slot::Unseen));
        }
    }
}

#[test]
fn random_board_all_mines() {
    let grid = MSGrid::new((3, 2), 1u64 << 32);
    assert_eq!(grid.num_unseen_tiles(), 0);
    for y in 0..2 {
        for x in 0..3 {
            assert_eq!(grid.get((x, y)), Some(Slot::Mine));
        }
    }
}

#[test]
fn random_board_counter_matches_mines() {
    let grid = MSGrid::new((10, 10), 1u64 << 31);
    let mut mines = 0;
    for y in 0..10 {
        for x in 0..10 {
            match grid.get((x, y)) {
                Some(Slot::Mine) => mines += 1,
                Some(Slot::Unseen) => {}
                other => panic!("unexpected tile {:?}", other),
            }
        }
    }
    assert_eq!(grid.num_unseen_tiles(), 100 - mines);
}

#[test]
fn sweeping_a_mine_fails_and_changes_nothing() {
    let mut grid = board(3, 3, &[(0, 0)]);
    assert!(!grid.try_sweep_at_cursor());
    assert_eq!(grid.num_unseen_tiles(), 8);
    assert_eq!(grid.get((0, 0)), Some(Slot::Mine));
    assert_eq!(grid.get((1, 1)), Some(Slot::Unseen));
}

#[test]
fn sweep_lowers_counter_by_tiles_revealed() {
    // mine in the middle of a single row: the fill from the left stops at the
    // tile next to the mine
    let mut grid = board(5, 1, &[(2, 0)]);
    assert_eq!(grid.num_unseen_tiles(), 4);
    assert!(grid.try_sweep_at_cursor());
    assert_eq!(grid.get((0, 0)), Some(Slot::Discovered(0)));
    assert_eq!(grid.get((1, 0)), Some(Slot::Discovered(1)));
    assert_eq!(grid.get((2, 0)), Some(Slot::Mine));
    assert_eq!(grid.get((3, 0)), Some(Slot::Unseen));
    assert_eq!(grid.get((4, 0)), Some(Slot::Unseen));
    assert_eq!(grid.num_unseen_tiles(), 2);
}

#[test]
fn sweep_cascades_around_a_corner_mine() {
    let mut grid = board(3, 3, &[(0, 0)]);
    move_cursor_to(&mut grid, 2, 2);
    assert!(grid.try_sweep_at_cursor());
    assert_eq!(grid.num_unseen_tiles(), 0);
    assert!(grid.has_won());
    assert_eq!(grid.get((1, 0)), Some(Slot::Discovered(1)));
    assert_eq!(grid.get((0, 1)), Some(Slot::Discovered(1)));
    assert_eq!(grid.get((1, 1)), Some(Slot::Discovered(1)));
    assert_eq!(grid.get((2, 0)), Some(Slot::Discovered(0)));
    assert_eq!(grid.get((0, 2)), Some(Slot::Discovered(0)));
    assert_eq!(grid.get((2, 2)), Some(Slot::Discovered(0)));
    assert_eq!(grid.get((0, 0)), Some(Slot::Mine));
}

#[test]
fn sweeping_a_revealed_tile_changes_nothing() {
    let mut grid = board(5, 1, &[(2, 0)]);
    move_cursor_to(&mut grid, 1, 0);
    assert!(grid.try_sweep_at_cursor());
    assert_eq!(grid.num_unseen_tiles(), 3);
    assert!(grid.try_sweep_at_cursor());
    assert_eq!(grid.num_unseen_tiles(), 3);
    assert_eq!(grid.get((1, 0)), Some(Slot::Discovered(1)));
    assert_eq!(grid.get((0, 0)), Some(Slot::Unseen));
}

#[test]
fn board_without_mines_reveals_in_one_sweep() {
    let mut grid = board(6, 4, &[]);
    move_cursor_to(&mut grid, 4, 1);
    assert!(grid.try_sweep_at_cursor());
    assert_eq!(grid.num_unseen_tiles(), 0);
    for y in 0..4 {
        for x in 0..6 {
            assert_eq!(grid.get((x, y)), Some(Slot::Discovered(0)));
        }
    }
}

#[test]
fn cursor_wraps_vertically() {
    let mut grid = board(3, 4, &[]);
    grid.move_cursor_up();
    assert_eq!(grid.cursor(), (0, 3));
    grid.move_cursor_down();
    assert_eq!(grid.cursor(), (0, 0));
    grid.move_cursor_down();
    assert_eq!(grid.cursor(), (0, 1));
    grid.move_cursor_up();
    assert_eq!(grid.cursor(), (0, 0));
}

#[test]
fn cursor_wraps_horizontally() {
    let mut grid = board(3, 4, &[]);
    grid.move_cursor_left();
    assert_eq!(grid.cursor(), (2, 0));
    grid.move_cursor_right();
    assert_eq!(grid.cursor(), (0, 0));
    grid.move_cursor_right();
    grid.move_cursor_right();
    assert_eq!(grid.cursor(), (2, 0));
    grid.move_cursor_left();
    assert_eq!(grid.cursor(), (1, 0));
}

#[test]
fn cursor_on_single_tile_board_stays() {
    let mut grid = board(1, 1, &[]);
    grid.move_cursor_up();
    grid.move_cursor_down();
    grid.move_cursor_left();
    grid.move_cursor_right();
    assert_eq!(grid.cursor(), (0, 0));
}

#[test]
fn corner_counts_its_three_neighbours() {
    let grid = board(3, 3, &[(1, 0), (0, 1), (1, 1), (2, 2)]);
    assert_eq!(grid.num_adjacent_mines_at((0, 0)), 3);
    assert_eq!(grid.num_adjacent_mines_at((2, 0)), 2);
    assert_eq!(grid.num_adjacent_mines_at((0, 2)), 2);
    assert_eq!(grid.num_adjacent_mines_at((2, 2)), 1);
}

#[test]
fn count_skips_the_tile_itself() {
    let grid = board(3, 3, &[(0, 0), (1, 1)]);
    assert_eq!(grid.num_adjacent_mines_at((0, 0)), 1);
    assert_eq!(grid.num_adjacent_mines_at((1, 1)), 1);
    let full = board(3, 3, &[(0, 0), (1, 0), (2, 0), (0, 1), (1, 1), (2, 1), (0, 2), (1, 2), (2, 2)]);
    assert_eq!(full.num_adjacent_mines_at((1, 1)), 8);
}

#[test]
fn single_tile_without_mine_is_won_in_one_sweep() {
    let mut grid = board(1, 1, &[]);
    assert_eq!(grid.num_unseen_tiles(), 1);
    assert!(!grid.has_won());
    assert!(grid.try_sweep_at_cursor());
    assert_eq!(grid.get((0, 0)), Some(Slot::Discovered(0)));
    assert_eq!(grid.num_unseen_tiles(), 0);
    assert!(grid.has_won());
}

#[test]
fn center_between_two_mines_does_not_cascade() {
    let mut grid = board(3, 3, &[(0, 0), (2, 2)]);
    move_cursor_to(&mut grid, 1, 1);
    assert!(grid.try_sweep_at_cursor());
    assert_eq!(grid.get((1, 1)), Some(Slot::Discovered(2)));
    assert_eq!(grid.num_unseen_tiles(), 6);
    for (x, y) in [(1, 0), (2, 0), (0, 1), (2, 1), (0, 2), (1, 2)] {
        assert_eq!(grid.get((x, y)), Some(Slot::Unseen));
    }
}

#[test]
fn three_by_three_without_mines_from_every_tile() {
    for sy in 0..3 {
        for sx in 0..3 {
            let mut grid = board(3, 3, &[]);
            move_cursor_to(&mut grid, sx, sy);
            assert!(grid.try_sweep_at_cursor());
            for y in 0..3 {
                for x in 0..3 {
                    assert_eq!(grid.get((x, y)), Some(Slot::Discovered(0)));
                }
            }
            assert_eq!(grid.num_unseen_tiles(), 0);
        }
    }
}

#[test]
fn get_off_the_board_is_none() {
    let grid = board(2, 3, &[]);
    assert_eq!(grid.get((2, 0)), None);
    assert_eq!(grid.get((0, 3)), None);
    assert_eq!(grid.get((1, 2)), Some(Slot::Unseen));
}

#[test]
fn render_shows_digits_markers_and_cursor() {
    let mut grid = board(3, 1, &[(2, 0)]);
    assert!(grid.try_sweep_at_cursor());
    let hidden = grid.render(false);
    assert_eq!(hidden, vec![vec![(' ', true), ('1', false), ('-', false)]]);
    grid.move_cursor_right();
    let shown = grid.render(true);
    assert_eq!(shown, vec![vec![(' ', false), ('1', true), ('@', false)]]);
}

#[test]
fn render_shape_follows_the_board() {
    let grid = board(4, 2, &[]);
    let rows = grid.render(false);
    assert_eq!(rows.len(), 2);
    assert!(rows.iter().all(|r| r.len() == 4));
    assert!(rows.iter().flatten().all(|c| c.0 == '-'));
}

#[test]
fn input_sweep_on_mine_loses() {
    let mut grid = board(2, 2, &[(0, 0)]);
    assert_eq!(grid.apply_input(Input::Sweep), Outcome::Lost);
    assert_eq!(grid.num_unseen_tiles(), 3);
}

#[test]
fn input_moves_then_wins() {
    let mut grid = board(2, 1, &[(0, 0)]);
    assert_eq!(grid.apply_input(Input::Ignored), Outcome::Playing);
    assert_eq!(grid.apply_input(Input::MoveRight), Outcome::Playing);
    assert_eq!(grid.cursor(), (1, 0));
    assert_eq!(grid.apply_input(Input::MoveDown), Outcome::Playing);
    assert_eq!(grid.apply_input(Input::MoveUp), Outcome::Playing);
    assert_eq!(grid.apply_input(Input::Sweep), Outcome::Won);
    assert_eq!(grid.get((1, 0)), Some(Slot::Discovered(1)));
    assert_eq!(grid.apply_input(Input::MoveLeft), Outcome::Won);
    assert_eq!(grid.cursor(), (0, 0));
}
