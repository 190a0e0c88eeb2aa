use crossterm::style::Color;
use engine::grid::BACKGROUND_COLOR;
use engine::grid::BACKGROUND_GLYPH;
use engine::DrawCall;
use engine::Grid;

#[test]
fn new_grid_is_untouched() {
    let grid = Grid::new(25, 15);
    assert_eq!(grid.width(), 25);
    assert_eq!(grid.height(), 15);
    for column in 0..25 {
        for row in 0..15 {
            let tile = grid.tile(column, row);
            assert_eq!(tile.glyph(), BACKGROUND_GLYPH);
            assert_eq!(tile.glyph(), ' ');
            assert_eq!(tile.color(), BACKGROUND_COLOR);
            assert_eq!(tile.color(), Color::Black);
            assert!(tile.current_occupants().is_empty());
            assert!(tile.previous_occupants().is_empty());
        }
    }
    assert!(grid.draw_calls().is_empty());
}

#[test]
fn one_by_one_grid_takes_every_write() {
    let mut grid = Grid::new(1, 1);
    grid.write((i32::MIN, i32::MAX), 'a', Color::Red, 1);
    grid.write((i32::MAX, i32::MIN), 'b', Color::Green, 2);
    assert_eq!(grid.tile(0, 0).glyph(), 'b');
    assert_eq!(grid.tile(0, 0).current_occupants(), &vec![1, 2]);
}

#[test]
fn write_is_clamped_into_the_grid() {
    let mut grid = Grid::new(25, 15);
    grid.write((-5, 1000), '*', Color::Blue, 7);
    let tile = grid.tile(0, 14);
    assert_eq!(tile.glyph(), '*');
    assert_eq!(tile.color(), Color::Blue);
    assert_eq!(tile.current_occupants(), &vec![7]);
    assert_eq!(
        grid.draw_calls(),
        vec![DrawCall { column: 0, row: 14, glyph: '*', color: Color::Blue }]
    );
    for column in 0..25 {
        for row in 0..15 {
            if (column, row) != (0, 14) {
                assert!(grid.tile(column, row).current_occupants().is_empty());
                assert_eq!(grid.tile(column, row).glyph(), ' ');
            }
        }
    }
}

#[test]
fn write_is_clamped_at_every_edge() {
    let mut grid = Grid::new(25, 15);
    grid.write((25, 15), 'a', Color::Red, 1);
    assert_eq!(grid.tile(24, 14).current_occupants(), &vec![1]);
    grid.write((-1, -1), 'b', Color::Red, 2);
    assert_eq!(grid.tile(0, 0).current_occupants(), &vec![2]);
    grid.write((24, 0), 'c', Color::Red, 3);
    assert_eq!(grid.tile(24, 0).current_occupants(), &vec![3]);
    grid.write((0, 14), 'd', Color::Red, 4);
    assert_eq!(grid.tile(0, 14).current_occupants(), &vec![4]);
    grid.write((12, 7), 'e', Color::Red, 5);
    assert_eq!(grid.tile(12, 7).current_occupants(), &vec![5]);
    grid.write((i32::MAX, i32::MIN), 'f', Color::Red, 6);
    assert_eq!(grid.tile(24, 0).current_occupants(), &vec![3, 6]);
}

#[test]
fn last_writer_decides_what_the_cell_shows() {
    let mut grid = Grid::new(4, 4);
    grid.write((2, 3), 'a', Color::Red, 1);
    grid.write((2, 3), 'b', Color::Yellow, 2);
    grid.write((2, 3), 'c', Color::Green, 1);
    let tile = grid.tile(2, 3);
    assert_eq!(tile.glyph(), 'c');
    assert_eq!(tile.color(), Color::Green);
    assert_eq!(tile.current_occupants(), &vec![1, 2, 1]);
}

#[test]
fn occupancy_lags_by_one_frame() {
    let mut grid = Grid::new(25, 15);
    grid.write((10, 10), '*', Color::Blue, 3);
    assert_eq!(grid.occupants((10, 10)), Vec::<i64>::new());
    grid.clear();
    assert_eq!(grid.occupants((10, 10)), vec![3]);
    grid.write((10, 10), '*', Color::Blue, 4);
    assert_eq!(grid.occupants((10, 10)), vec![3]);
    grid.clear();
    assert_eq!(grid.occupants((10, 10)), vec![4]);
    grid.clear();
    assert_eq!(grid.occupants((10, 10)), Vec::<i64>::new());
}

#[test]
fn occupants_keep_write_order_and_repeats() {
    let mut grid = Grid::new(3, 3);
    grid.write((1, 1), 'x', Color::Red, 9);
    grid.write((1, 1), 'y', Color::Red, 2);
    grid.write((1, 1), 'z', Color::Red, 9);
    grid.write((0, 1), 'z', Color::Red, 5);
    grid.clear();
    assert_eq!(grid.occupants((1, 1)), vec![9, 2, 9]);
    assert_eq!(grid.occupants((0, 1)), vec![5]);
    assert_eq!(grid.occupants((2, 2)), Vec::<i64>::new());
}

#[test]
fn occupancy_question_is_clamped_like_a_write() {
    let mut grid = Grid::new(25, 15);
    grid.write((-5, 1000), '*', Color::Blue, 7);
    grid.clear();
    assert_eq!(grid.occupants((0, 14)), vec![7]);
    assert_eq!(grid.occupants((-1, 14)), vec![7]);
    assert_eq!(grid.occupants((0, 15)), vec![7]);
    assert_eq!(grid.occupants((-100, 20000)), vec![7]);
    assert_eq!(grid.occupants((1, 14)), Vec::<i64>::new());
}

#[test]
fn clear_blanks_every_cell() {
    let mut grid = Grid::new(2, 2);
    grid.write((1, 0), 'q', Color::Magenta, 1);
    grid.clear();
    for column in 0..2 {
        for row in 0..2 {
            let tile = grid.tile(column, row);
            assert_eq!(tile.glyph(), BACKGROUND_GLYPH);
            assert_eq!(tile.glyph(), ' ');
            assert_eq!(tile.color(), Color::Black);
            assert!(tile.current_occupants().is_empty());
        }
    }
    assert_eq!(grid.tile(1, 0).previous_occupants(), &vec![1]);
    assert!(grid.tile(0, 0).previous_occupants().is_empty());
    assert_eq!(grid.width(), 2);
    assert_eq!(grid.height(), 2);
}

#[test]
fn flush_goes_column_by_column_and_skips_untouched_cells() {
    let mut grid = Grid::new(3, 2);
    grid.write((2, 0), 'c', Color::Red, 1);
    grid.write((0, 1), 'a', Color::Green, 2);
    grid.write((2, 1), 'd', Color::Blue, 3);
    grid.write((0, 0), 'b', Color::White, 4);
    assert_eq!(
        grid.draw_calls(),
        vec![
            DrawCall { column: 0, row: 0, glyph: 'b', color: Color::White },
            DrawCall { column: 0, row: 1, glyph: 'a', color: Color::Green },
            DrawCall { column: 2, row: 0, glyph: 'c', color: Color::Red },
            DrawCall { column: 2, row: 1, glyph: 'd', color: Color::Blue },
        ]
    );
}

#[test]
fn flush_draws_a_left_cell_once_more() {
    let mut grid = Grid::new(25, 15);
    grid.write((10, 10), '*', Color::Blue, 1);
    assert_eq!(
        grid.draw_calls(),
        vec![DrawCall { column: 10, row: 10, glyph: '*', color: Color::Blue }]
    );
    grid.clear();
    assert_eq!(
        grid.draw_calls(),
        vec![DrawCall { column: 10, row: 10, glyph: ' ', color: Color::Black }]
    );
    grid.clear();
    assert!(grid.draw_calls().is_empty());
}

#[test]
fn flush_does_not_change_the_grid() {
    let mut grid = Grid::new(5, 5);
    grid.write((1, 2), 'x', Color::Cyan, 8);
    let first = grid.draw_calls();
    let second = grid.draw_calls();
    assert_eq!(first, second);
    assert_eq!(grid.tile(1, 2).current_occupants(), &vec![8]);
}

#[test]
fn new_grid_shows_what_clear_restores() {
    let fresh = Grid::new(3, 2);
    let mut used = Grid::new(3, 2);
    used.write((1, 1), 'x', Color::Red, 4);
    used.clear();
    used.clear();
    for column in 0..3 {
        for row in 0..2 {
            assert_eq!(fresh.tile(column, row).glyph(), used.tile(column, row).glyph());
            assert_eq!(fresh.tile(column, row).color(), used.tile(column, row).color());
            assert_eq!(
                fresh.tile(column, row).previous_occupants(),
                used.tile(column, row).previous_occupants()
            );
        }
    }
}
