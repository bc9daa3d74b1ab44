use boat_journey::explosion::{is_in_explosion_range, Mechanics};
use boat_journey::geometry::Coord;

#[test]
fn explosion_reaches_within_its_range() {
    let m = Mechanics { range: 3 };
    let centre = Coord::new(10, 10);
    assert!(is_in_explosion_range(centre, &m, Coord::new(10, 10)));
    assert!(is_in_explosion_range(centre, &m, Coord::new(13, 10)));
    // 2 * 2 + 2 * 2 = 8 <= 9
    assert!(is_in_explosion_range(centre, &m, Coord::new(12, 12)));
    // 3 * 3 + 1 = 10 > 9
    assert!(!is_in_explosion_range(centre, &m, Coord::new(13, 11)));
    assert!(!is_in_explosion_range(centre, &Mechanics { range: 0 }, Coord::new(11, 10)));
}
