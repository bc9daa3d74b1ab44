use boat_journey::doors::DoorCell;
use boat_journey::geometry::{Axis, Coord, Size};
use boat_journey::grid::Grid;
use boat_journey::windows::{
    add_windows, identify_window_candidates_in_axis, WindowCandidate, WindowCell,
};
use rand::SeedableRng;
use rand_isaac::Isaac64Rng;

fn grid_from_rows(rows: &[&str]) -> Grid<DoorCell> {
    let size = Size::new(rows[0].len() as u32, rows.len() as u32);
    let mut grid = Grid::new_copy(size, DoorCell::Space);
    for (y, row) in rows.iter().enumerate() {
        for (x, ch) in row.chars().enumerate() {
            let cell = match ch {
                '#' => DoorCell::Wall,
                '.' => DoorCell::Floor,
                '+' => DoorCell::Door(Axis::X),
                _ => DoorCell::Space,
            };
            grid.set(Coord::new(x as i32, y as i32), cell);
        }
    }
    grid
}

fn cabin() -> Grid<DoorCell> {
    grid_from_rows(&["#####", "#...#", "#.#.#", "#...#", "#####"])
}

fn candidate(axis: Axis, x: i32, y: i32, length: u32, external: bool) -> WindowCandidate {
    WindowCandidate { axis, top_left: Coord::new(x, y), length, external }
}

#[test]
fn window_runs_along_x() {
    let xs = identify_window_candidates_in_axis(&cabin(), Axis::X);
    assert_eq!(
        xs,
        vec![
            candidate(Axis::X, 0, 1, 3, true),
            candidate(Axis::X, 2, 2, 1, false),
            candidate(Axis::X, 4, 1, 3, true),
        ]
    );
    assert_eq!(xs[0].next_coord(), Coord::new(0, 4));
}

#[test]
fn window_runs_along_y() {
    let ys = identify_window_candidates_in_axis(&cabin(), Axis::Y);
    assert_eq!(
        ys,
        vec![
            candidate(Axis::Y, 1, 0, 3, true),
            candidate(Axis::Y, 2, 2, 1, false),
            candidate(Axis::Y, 1, 4, 3, true),
        ]
    );
}

#[test]
fn outer_walls_get_windows_and_the_rest_is_kept() {
    let grid = cabin();
    let mut rng = Isaac64Rng::seed_from_u64(2);
    let out = add_windows(&grid, &mut rng);
    let mut windows = 0;
    for y in 0..5 {
        for x in 0..5 {
            let c = Coord::new(x, y);
            match *out.get_checked(c) {
                WindowCell::Window(_) => {
                    let on_border = x == 0 || x == 4 || y == 0 || y == 4;
                    let corner = (x == 0 || x == 4) && (y == 0 || y == 4);
                    assert!(on_border && !corner);
                    windows += 1;
                }
                WindowCell::Wall => assert_eq!(*grid.get_checked(c), DoorCell::Wall),
                WindowCell::Floor => assert_eq!(*grid.get_checked(c), DoorCell::Floor),
                other => panic!("unexpected cell {:?}", other),
            }
        }
    }
    // two of the four outer runs get one or two windows each; the inner ones get none
    assert!((2..=4).contains(&windows));
    assert_eq!(*out.get_checked(Coord::new(2, 2)), WindowCell::Wall);
}

#[test]
fn doors_stay_doors() {
    let grid = grid_from_rows(&["#+#", "#.#"]);
    let mut rng = Isaac64Rng::seed_from_u64(4);
    let out = add_windows(&grid, &mut rng);
    assert_eq!(*out.get_checked(Coord::new(1, 0)), WindowCell::Door(Axis::X));
    assert_eq!(*out.get_checked(Coord::new(1, 1)), WindowCell::Floor);
}
