use copper_differential::geometry::{IntBox, IntOctagon, IntPoint};
use copper_differential::kinds::TreeObject;
use copper_differential::room_probe::{
    comparator_neighbour, comparator_room, corner_neighbour, corner_room, flags, object_text,
    ignore_text, obstacles, regime_of, room_call, seed_room, IgnoredObject, RoomShape,
};
use copper_differential::xorshift::XorShift64;

fn bx(a: i32, b: i32, c: i32, d: i32) -> IntBox {
    IntBox { ll: IntPoint { x: a, y: b }, ur: IntPoint { x: c, y: d } }
}

#[test]
fn obstacles_draw_box_then_layer() {
    let mut rng = XorShift64::new(42);
    let v = obstacles(&mut rng, 3);
    assert_eq!(
        v,
        vec![
            (bx(8496, 4150, 9056, 6521), 0),
            (bx(-3980, -333, -1897, 700), 1),
            (bx(5966, 4944, 8451, 6759), 1)
        ]
    );
    assert_eq!(rng.state, 14034143480414033665);
}

#[test]
fn obstacles_of_a_non_positive_count_are_none() {
    let mut rng = XorShift64::new(42);
    assert!(obstacles(&mut rng, 0).is_empty());
    assert!(obstacles(&mut rng, -4).is_empty());
    assert_eq!(rng.state, 42);
}

#[test]
fn comparator_draws_room_then_neighbours() {
    let mut rng = XorShift64::new(7);
    let room = comparator_room(&mut rng);
    assert_eq!(room.room, bx(-729, 1345, 826, 3338));
    assert_eq!(room.count, 4);
    assert_eq!(room.fixed_side, 1);
    assert_eq!(rng.state, 13132852266797165125);
    let n = comparator_neighbour(&mut rng, &room.room, false, room.fixed_side);
    assert_eq!(n.shape, bx(826, 1637, 1126, 1805));
    assert!(!n.room_corner);
    assert!(!n.neighbour_corner);
    assert_eq!(n.object_id, 1);
    assert_eq!(rng.state, 12385489502095420092);
    let s = comparator_neighbour(&mut rng, &room.room, true, room.fixed_side);
    assert_eq!(s.shape, bx(826, 1741, 1126, 1866));
    assert!(!s.room_corner);
    assert!(s.neighbour_corner);
    assert_eq!(s.object_id, 2);
    assert_eq!(rng.state, 10048748263042813217);
}

#[test]
fn corner_probe_draws_room_then_neighbour() {
    let mut rng = XorShift64::new(9);
    let room = corner_room(&mut rng);
    assert_eq!(room.room, bx(939, 1227, 2824, 2439));
    assert_eq!(room.count, 5);
    let n = corner_neighbour(&mut rng);
    assert_eq!(n.shape, bx(-349, 2988, 237, 3818));
    assert_eq!(n.room_side, 2);
    assert_eq!(n.neighbour_side, 1);
    assert!(n.room_corner);
    assert!(!n.neighbour_corner);
    assert_eq!(n.object_id, 1);
    assert_eq!(rng.state, 1187515565791135155);
}

#[test]
fn flags_render_like_a_java_boolean_array() {
    assert_eq!(flags(&[]), "[]");
    assert_eq!(flags(&[true]), "[true]");
    assert_eq!(flags(&[true, false, true]), "[true,false,true]");
}

#[test]
fn regime_of_numbers_the_angle_modes() {
    assert_eq!(regime_of(6), 2);
    assert_eq!(regime_of(8), 2);
    assert_eq!(regime_of(7), 1);
    assert_eq!(regime_of(9), 1);
    assert_eq!(regime_of(0), 0);
    assert_eq!(regime_of(5), 0);
}

#[test]
fn object_text_names_items_and_rooms() {
    assert_eq!(object_text(TreeObject::Item(12), None), "item12");
    assert_eq!(object_text(TreeObject::Room(3), Some(41)), "cfsr41");
    assert_eq!(object_text(TreeObject::Room(65536 + 5), None), "cfsr5");
}

#[test]
fn room_completion_calls_follow_the_stream() {
    let mut rng = XorShift64::new(42);
    let seeds: Vec<IntBox> = (0..3).map(|_| seed_room(&mut rng).0).collect();
    assert_eq!(
        seeds,
        vec![bx(8496, 4150, 10018, 6903), bx(-3980, -333, -1504, 2633), bx(5966, 4944, 8095, 6396)]
    );
    let first = room_call(&mut rng, &seeds);
    assert_eq!(
        first.shape,
        RoomShape::Octagon(IntOctagon {
            left_x: 5831,
            bottom_y: 1859,
            right_x: 11319,
            top_y: 3795,
            upper_left_diagonal_x: 2055,
            lower_right_diagonal_x: 9426,
            lower_left_diagonal_x: 7746,
            upper_right_diagonal_x: 14882,
        })
    );
    assert_eq!(first.contained, bx(6830, 3595, 7035, 3734));
    assert_eq!((first.layer, first.net_number), (0, 2));
    assert_eq!(first.ignore_object, IgnoredObject::Nothing);
    assert_eq!(first.ignore_shape, Some(bx(3763, -4367, 7009, -1516)));
    let second = room_call(&mut rng, &seeds);
    assert_eq!(second.shape, RoomShape::Box(bx(-54, -5859, 4909, -4413)));
    assert_eq!(second.ignore_shape, None);
    let third = room_call(&mut rng, &seeds);
    assert_eq!(third.ignore_object, IgnoredObject::SeedRoom(2));
    assert_eq!((third.layer, third.net_number), (1, 2));
    let fourth = room_call(&mut rng, &seeds);
    assert_eq!(fourth.shape, RoomShape::Unbounded);
    assert_eq!(fourth.contained, bx(2619, -2346, 2887, -2262));
    for _ in 4..9 {
        room_call(&mut rng, &seeds);
    }
    let tenth = room_call(&mut rng, &seeds);
    assert_eq!(tenth.ignore_object, IgnoredObject::Item(3));
    assert_eq!(tenth.ignore_shape, Some(bx(-5535, -1888, 51, 4188)));
}

#[test]
fn ignored_objects_are_named() {
    assert_eq!(ignore_text(IgnoredObject::Nothing, &[]), "null");
    assert_eq!(ignore_text(IgnoredObject::Item(4), &[]), "item4");
    assert_eq!(ignore_text(IgnoredObject::SeedRoom(1), &[7, 8, 9]), "room8");
}
