use boat_journey::geometry::{Coord, Size};
use boat_journey::grid::Grid;
use boat_journey::hull::{
    accept_hull, hull_bounding_box, hull_from_wave, input_grid_from_strs,
    keep_largest_enclosed_area, strip_walls_from_outside, surround_by_space, wrap_in_closed_area,
    GenerationCell, HullCell,
};

use GenerationCell::{Closed, Open};

fn generation_grid(rows: &[&str]) -> Grid<GenerationCell> {
    let rows: Vec<&str> = rows.to_vec();
    input_grid_from_strs(&rows)
}

fn at<T: Copy>(g: &Grid<T>, x: i32, y: i32) -> T {
    *g.get_checked(Coord::new(x, y))
}

#[test]
fn template_rows_draw_the_grid() {
    let g = generation_grid(&["..#", "#."]);
    assert_eq!(g.size(), Size::new(3, 2));
    assert_eq!(at(&g, 0, 0), Open);
    assert_eq!(at(&g, 2, 0), Closed);
    assert_eq!(at(&g, 0, 1), Closed);
    assert_eq!(at(&g, 1, 1), Open);
    // past the end of a shorter row the cell stays open
    assert_eq!(at(&g, 2, 1), Open);
}

#[test]
fn the_hull_template_parses() {
    let template = vec![
        "................",
        "...###..........",
        "..##.##.........",
        "..#...#...####..",
        "..#...#...#..#..",
        "..#...#...#..#..",
        "..#...#...#..#..",
        "..#...#...#..#..",
        "..#...#...#..#..",
        "..#...#####..#..",
        "..#..........#..",
        "..#..........#..",
        "..#....####..#..",
        "..######..####..",
        "................",
    ];
    let g = input_grid_from_strs(&template);
    assert_eq!(g.size(), Size::new(16, 15));
    assert_eq!(at(&g, 3, 1), Closed);
    assert_eq!(at(&g, 4, 2), Open);
    assert_eq!(at(&g, 13, 12), Closed);
    assert_eq!(at(&g, 15, 14), Open);
}

#[test]
fn wrapping_adds_a_closed_border() {
    let g = wrap_in_closed_area(&generation_grid(&["."]));
    assert_eq!(g.size(), Size::new(3, 3));
    for y in 0..3 {
        for x in 0..3 {
            let expected = if x == 1 && y == 1 { Open } else { Closed };
            assert_eq!(at(&g, x, y), expected);
        }
    }
}

#[test]
fn closed_cells_next_to_open_ones_become_walls() {
    let g = generation_grid(&["#####", "#####", "##.##", "#####", "#####"]);
    let h = strip_walls_from_outside(&g);
    assert_eq!(at(&h, 2, 2), HullCell::Floor);
    assert_eq!(at(&h, 1, 1), HullCell::Wall);
    assert_eq!(at(&h, 3, 2), HullCell::Wall);
    assert_eq!(at(&h, 0, 0), HullCell::Space);
    assert_eq!(at(&h, 4, 2), HullCell::Space);
    let copy = surround_by_space(&h);
    for y in 0..5 {
        for x in 0..5 {
            assert_eq!(at(&copy, x, y), at(&h, x, y));
        }
    }
    assert_eq!(hull_bounding_box(&h), Size::new(2, 2));
}

#[test]
fn only_the_largest_area_stays_open() {
    // the two cells at the top left touch by a corner: one area of two cells
    let g = generation_grid(&[".##.", "#.##", "####"]);
    let kept = keep_largest_enclosed_area(&g);
    assert_eq!(at(&kept, 0, 0), Open);
    assert_eq!(at(&kept, 1, 1), Open);
    assert_eq!(at(&kept, 3, 0), Closed);
}

#[test]
fn the_last_of_equally_large_areas_is_kept() {
    let g = generation_grid(&[".#.", "###"]);
    let kept = keep_largest_enclosed_area(&g);
    assert_eq!(at(&kept, 0, 0), Closed);
    assert_eq!(at(&kept, 2, 0), Open);
}

#[test]
fn a_hull_grows_from_a_wave() {
    let h = hull_from_wave(&generation_grid(&["..", ".."]));
    assert_eq!(h.size(), Size::new(4, 4));
    for y in 0..4 {
        for x in 0..4 {
            let inside = (1..3).contains(&x) && (1..3).contains(&y);
            let expected = if inside { HullCell::Floor } else { HullCell::Wall };
            assert_eq!(at(&h, x, y), expected);
        }
    }
    // four floor cells out of sixteen are too few
    assert!(!accept_hull(&h));
}

#[test]
fn hulls_must_fill_their_grid() {
    let full = Grid::new_copy(Size::new(4, 4), HullCell::Floor);
    assert!(accept_hull(&full));
    let mut narrow = Grid::new_copy(Size::new(20, 20), HullCell::Space);
    for y in 0..20 {
        for x in 0..10 {
            narrow.set(Coord::new(x, y), HullCell::Floor);
        }
    }
    // half of the cells are floor, but the extent falls short by 11 cells across
    assert!(!accept_hull(&narrow));
}
