use copper_differential::delaunay_probe::{inputs_line, objects_of};
use copper_differential::geometry::IntPoint;

fn pt(x: i32, y: i32) -> IntPoint {
    IntPoint { x, y }
}

#[test]
fn fixed_modes_place_their_points() {
    assert_eq!(
        objects_of(1, 50, 42),
        vec![vec![pt(0, 0)], vec![pt(1000, 0)], vec![pt(1000, 1000)], vec![pt(0, 1000)]]
    );
    assert_eq!(objects_of(3, 0, 0).len(), 7);
    assert_eq!(objects_of(3, 0, 0)[6], vec![pt(300, 400)]);
    let grid = objects_of(5, 0, 0);
    assert_eq!(grid.len(), 25);
    assert_eq!(grid[7], vec![pt(1000, 2000)]);
    assert_eq!(grid[24], vec![pt(4000, 4000)]);
}

#[test]
fn random_modes_draw_from_the_seed() {
    assert_eq!(
        objects_of(4, 2, 42),
        vec![
            vec![pt(-94326, 5471), pt(20954, -70264)],
            vec![pt(-15838, -24573), pt(-70925, 4114)],
        ]
    );
    assert_eq!(
        objects_of(6, 3, 42),
        vec![vec![pt(14, 11)], vec![pt(14, -4)], vec![pt(-18, 7)]]
    );
    assert_eq!(objects_of(0, 2, 7), vec![vec![pt(-11673, -48348)], vec![pt(63743, 95107)]]);
}

#[test]
fn the_input_line_numbers_objects_from_one() {
    let objects = vec![vec![pt(0, 0)], vec![pt(-5, 7), pt(3, 4)]];
    assert_eq!(inputs_line(&objects), "in: 1@0,0 2@-5,7 2@3,4");
    assert_eq!(inputs_line(&vec![]), "in:");
}
