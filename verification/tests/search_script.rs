use copper_differential::geometry::{IntBox, IntPoint};
use copper_differential::search_probe::{
    plan_area, plan_clearance_query, plan_item, plan_overlap_query, RandomItem,
};
use copper_differential::xorshift::XorShift64;

fn pt(x: i32, y: i32) -> IntPoint {
    IntPoint { x, y }
}

fn ibox(x1: i32, y1: i32, x2: i32, y2: i32) -> IntBox {
    IntBox::from_coords(x1, y1, x2, y2)
}

#[test]
fn the_item_script_mixes_pins_vias_and_traces() {
    let mut rng = XorShift64::new(42);
    assert_eq!(
        plan_item(&mut rng),
        RandomItem::Trace {
            layer: 1,
            from: pt(-948, -182),
            to: pt(-11336, -5872),
            half_width: 30,
            net_no: 3,
            clearance_class: 1,
        }
    );
    assert_eq!(
        plan_item(&mut rng),
        RandomItem::Via { center: pt(-3358, 11253), net_no: 4, clearance_class: 2, attach: false }
    );
    assert_eq!(
        plan_item(&mut rng),
        RandomItem::Pin {
            location: pt(2657, 5693),
            quarter_turns: 3,
            on_front: true,
            pin_index: 1,
            net_no: 3,
            clearance_class: 1,
        }
    );
    for _ in 0..3 {
        plan_item(&mut rng);
    }
    assert_eq!(plan_area(&mut rng, false), (ibox(-1838, -25, -1221, 1319), 0, 0, 2, false));
    assert_eq!(plan_area(&mut rng, true), (ibox(8270, -820, 8690, -458), 1, 1, 2, false));
    assert_eq!(plan_overlap_query(&mut rng), ibox(719, -2398, 2940, 476));
    assert_eq!(
        plan_clearance_query(&mut rng),
        (ibox(-312, 12080, 1019, 14045), 0, 2, vec![])
    );
    assert_eq!(
        plan_clearance_query(&mut rng),
        (ibox(-5750, 7143, -5279, 9430), 1, 2, vec![1])
    );
    plan_clearance_query(&mut rng);
    plan_clearance_query(&mut rng);
    assert_eq!(rng.state, 15744036065672516149);
}

#[test]
fn random_traces_have_two_distinct_ends() {
    let mut rng = XorShift64::new(7);
    for _ in 0..200 {
        if let RandomItem::Trace { from, to, .. } = plan_item(&mut rng) {
            assert_ne!(from, to);
        }
    }
}
