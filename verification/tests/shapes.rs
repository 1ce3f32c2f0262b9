use copper_differential::delaunay_probe;
use copper_differential::geometry::{IntBox, IntOctagon, IntPoint, Point, RegularTileShape};
use copper_differential::kinds::{TreeEntry, TreeObject};
use copper_differential::search_probe::{object_ids, pair_text};
use copper_differential::shape_probe::{bx, exception_text, fmt, i_arr, ip_arr, pts_str};
use copper_differential::tree_dump_probe;
use copper_differential::tree_probe::{bounds_str, obj, obj_str, tile};
use copper_differential::tree_replay_probe;

fn ip(x: i32, y: i32) -> IntPoint {
    IntPoint { x, y }
}

fn octagon() -> IntOctagon {
    IntOctagon {
        left_x: -70,
        bottom_y: -70,
        right_x: 70,
        top_y: 70,
        upper_left_diagonal_x: -140,
        lower_right_diagonal_x: 140,
        lower_left_diagonal_x: -140,
        upper_right_diagonal_x: 140,
    }
}

#[test]
fn shape_probe_renderings() {
    assert_eq!(fmt(Ok(true)), "true");
    assert_eq!(fmt(Err("EXC".to_string())), "EXC");
    assert_eq!(bx(&IntBox { ll: ip(1, -2), ur: ip(3, 4) }), "B(1,-2,3,4)");
    assert_eq!(pts_str(&[Point::Int(ip(1, 2)), Point::Int(ip(-3, 0))]), "[(1,2),(-3,0),]");
    assert_eq!(pts_str(&[]), "[]");
    assert_eq!(ip_arr(&[ip(1, 2), ip(3, -4)]), "[2:1/2;3/-4;]");
    assert_eq!(i_arr(&[0, 7]), "[2:0;7;]");
    assert_eq!(i_arr(&[]), "[0:]");
}

#[test]
fn delaunay_probe_renderings() {
    let p = delaunay_probe::p(3, -4);
    assert_eq!(p, Point::Int(ip(3, -4)));
    assert_eq!(delaunay_probe::fmt(&p), "3,-4");
    assert_eq!(delaunay_probe::fmt(&Point::Rational), "rational");
    assert_eq!(delaunay_probe::obj_id(None), "none");
    assert_eq!(delaunay_probe::obj_id(Some(17)), "17");
}

#[test]
fn tree_probe_renderings() {
    assert_eq!(obj(5), TreeObject::Item(5));
    assert_eq!(obj_str(&obj(5)), "#5");
    let b = tile([0, 1, 10, 11]);
    assert_eq!(b, IntBox { ll: ip(0, 1), ur: ip(10, 11) });
    assert_eq!(bounds_str(&b), "(0,1,10,11)");
    assert_eq!(
        tree_replay_probe::bounds_str(&RegularTileShape::Box(b)),
        "B(0,1,10,11)"
    );
    assert_eq!(
        tree_replay_probe::bounds_str(&RegularTileShape::Octagon(octagon())),
        "O(-70,-70,70,70,-140,140,-140,140)"
    );
}

#[test]
fn tree_dump_probe_renderings() {
    let b = IntBox { ll: ip(-5, 0), ur: ip(5, 9) };
    assert_eq!(tree_dump_probe::b(&b), "[-5,0..5,9]");
    assert_eq!(tree_dump_probe::shp(&RegularTileShape::Box(b)), "Box[-5,0..5,9]");
    assert_eq!(
        tree_dump_probe::shp(&RegularTileShape::Octagon(octagon())),
        "Oct[-70,-70,70,70,-140,140,-140,140]"
    );
    assert_eq!(tree_dump_probe::nets(&[1, 2]), "[1, 2]");
    assert_eq!(tree_dump_probe::nets(&[]), "[]");
    let entries = [
        TreeEntry { object: TreeObject::Item(4), shape_index: 0 },
        TreeEntry { object: TreeObject::Room(9), shape_index: 1 },
        TreeEntry { object: TreeObject::Item(7), shape_index: 2 },
    ];
    assert_eq!(tree_dump_probe::pair_text(&entries), " 4/0 7/2");
    assert_eq!(pair_text(&entries), "[4/0 7/2]");
    assert_eq!(object_ids(&[TreeObject::Item(2), TreeObject::Item(11)]), "[2 11]");
}

#[test]
fn panic_messages_map_to_java_exceptions() {
    assert_eq!(
        exception_text("called `Option::unwrap()`: TileShape.cutout returned null"),
        "EXC:NullPointerException"
    );
    assert_eq!(
        exception_text("no nearest border point on a shape without border lines"),
        "EXC:NullPointerException"
    );
    assert_eq!(exception_text("index out of bounds"), "EXC:index out of bounds");
    assert_eq!(exception_text(""), "EXC:");
}
