use copper_differential::board_probe::{
    boxs, changed_area_line, descending, ids, layer_or_minus_one, net_array, objects, oct, opt_id, point, points,
};
use copper_differential::fanout_probe::removed;
use copper_differential::geometry::{IntBox, IntOctagon, IntPoint, Line, Point};
use copper_differential::kinds::{FixedState, ItemKind, TreeObject};
use copper_differential::routing_probe::{
    dump_fixed_state, dump_line, dump_nets, item_type_name, p, regime_name, targets_a, targets_b,
    trace_key, classify, via_class_name, ViaClass, ViaContact,
};
use copper_differential::kinds::AngleRestriction;

fn ip(x: i32, y: i32) -> IntPoint {
    IntPoint { x, y }
}

#[test]
fn board_probe_renderings() {
    assert_eq!(net_array(&[1, -2]), "[1, -2]");
    assert_eq!(boxs(&IntBox { ll: ip(0, 0), ur: ip(5, 6) }), "Box[0,0..5,6]");
    let o = IntOctagon {
        left_x: 1,
        bottom_y: 2,
        right_x: 3,
        top_y: 4,
        upper_left_diagonal_x: 5,
        lower_right_diagonal_x: 6,
        lower_left_diagonal_x: 7,
        upper_right_diagonal_x: 8,
    };
    assert_eq!(oct(&o), "Oct[1,2,3,4,5,6,7,8]");
    assert_eq!(point(None), "null");
    assert_eq!(point(Some(&Point::Int(ip(-1, 2)))), "(-1,2)");
    assert_eq!(points(&[Point::Int(ip(1, 1)), Point::Int(ip(2, 3))]), "[(1,1) (2,3)]");
    assert_eq!(ids(&[9, 3]), "[9 3]");
    assert_eq!(objects(&[TreeObject::Item(1), TreeObject::Item(5)]), "[1 5]");
    assert_eq!(opt_id(None), "null");
    assert_eq!(opt_id(Some(8)), "8");
    assert_eq!(layer_or_minus_one(None), -1);
    assert_eq!(layer_or_minus_one(Some(3)), 3);
    assert_eq!(descending(&[1, 4, 9]), vec![9, 4, 1]);
}

#[test]
fn removed_lists_the_missing_ids_in_ascending_order() {
    assert_eq!(removed(&[9, 2, 7, 4], &[7, 1]), "[2,4,9]");
    assert_eq!(removed(&[1, 2], &[1, 2]), "[]");
    assert_eq!(removed(&[], &[]), "[]");
}

#[test]
fn routing_probe_renderings() {
    assert_eq!(dump_line(&Line { a: ip(0, 1), b: ip(-2, 3) }), "(0,1)->(-2,3)");
    assert_eq!(dump_nets(&[3, 1]), "[3,1]");
    assert_eq!(dump_fixed_state(FixedState::ShoveFixed), "SHOVE_FIXED");
    assert_eq!(regime_name(AngleRestriction::NinetyDegree), "NINETY_DEGREE");
    assert_eq!(item_type_name(ItemKind::Via), "Via");
    assert_eq!(p(4, 5), Point::Int(ip(4, 5)));
}

#[test]
fn via_probe_target_families() {
    let c = ip(100, 200);
    let a = targets_a(c, ip(1, 2), ip(3, 4));
    assert_eq!(a.len(), 27);
    assert_eq!(&a[0..3], &[ip(1, 2), ip(3, 4), c]);
    assert_eq!(
        &a[3..9],
        &[ip(101, 200), ip(100, 201), ip(101, 201), ip(99, 200), ip(100, 199), ip(99, 199)]
    );
    assert_eq!(a[26], ip(-99900, -99800));
    let b = targets_b(c, ip(10, 20), ip(30, 40));
    assert_eq!(
        b,
        vec![
            ip(100, 20),
            ip(10, 200),
            ip(100, 40),
            ip(30, 200),
            ip(10, 20),
            ip(30, 40),
            c,
            ip(101, 200),
            ip(101, 201),
            ip(1100, 1200),
            ip(-900, 200)
        ]
    );
}

#[test]
fn trace_key_is_the_later_corner() {
    let a = IntPoint { x: 3, y: 9 };
    let b = IntPoint { x: 5, y: -2 };
    assert_eq!(trace_key(a, b), b);
    assert_eq!(trace_key(b, a), b);
    let c = IntPoint { x: 3, y: 10 };
    assert_eq!(trace_key(a, c), c);
    assert_eq!(trace_key(c, a), c);
    assert_eq!(trace_key(a, a), a);
}

fn trace_contact(first_within: bool, last_within: bool) -> ViaContact {
    ViaContact {
        present: true,
        shove_fixed: false,
        is_trace: true,
        is_conduction_area: false,
        first_within,
        last_within,
    }
}

#[test]
fn via_classification_follows_the_checks_in_order() {
    let good = trace_contact(true, false);
    let far = trace_contact(false, false);
    let plane = ViaContact {
        present: true,
        shove_fixed: false,
        is_trace: false,
        is_conduction_area: true,
        first_within: false,
        last_within: false,
    };
    let pin = ViaContact { is_conduction_area: false, ..plane };
    let gone = ViaContact { present: false, ..good };
    assert_eq!(classify(true, &[good, good]), ViaClass::ShoveFixed);
    assert_eq!(classify(false, &[plane]), ViaClass::PlaneOrFanoutOneContact);
    assert_eq!(classify(false, &[]), ViaClass::WrongContactCount);
    assert_eq!(classify(false, &[good, good, good]), ViaClass::WrongContactCount);
    assert_eq!(classify(false, &[plane, pin]), ViaClass::UnusableContact);
    assert_eq!(classify(false, &[gone, plane]), ViaClass::UnusableContact);
    assert_eq!(classify(false, &[plane, far]), ViaClass::PlaneOrFanoutConduction);
    assert_eq!(classify(false, &[good, far]), ViaClass::NotAtEndpoint);
    assert_eq!(classify(false, &[good, trace_contact(false, true)]), ViaClass::TwoTraces);
    assert_eq!(via_class_name(ViaClass::NotAtEndpoint), "NOT_AT_ENDPOINT");
    assert_eq!(via_class_name(ViaClass::PlaneOrFanoutOneContact), "PLANE_OR_FANOUT_ONE_CONTACT");
}

#[test]
fn changed_areas_list_every_layer() {
    let o = IntOctagon {
        left_x: 0,
        bottom_y: -10,
        right_x: 100,
        top_y: 90,
        upper_left_diagonal_x: -90,
        lower_right_diagonal_x: 110,
        lower_left_diagonal_x: -10,
        upper_right_diagonal_x: 190,
    };
    assert_eq!(changed_area_line("before", None), "changedArea before=null");
    assert_eq!(
        changed_area_line("after", Some(&[Some(o), None])),
        "changedArea after=[(0,-10,100,90,-90,110,-10,190),empty]"
    );
    assert_eq!(changed_area_line("none", Some(&[])), "changedArea none=[]");
}
