use copper_differential::geometry::{IntBox, IntPoint};
use copper_differential::mutation::{plan, seed_for, BoardCounts, Mutation};
use copper_differential::xorshift::XorShift64;

#[test]
fn seed_for_hashes_the_stem_steps_and_route_count() {
    assert_eq!(seed_for("board.dsn", 10, 3), 14435463972096430607);
    assert_eq!(seed_for("", 0, 0), 7187836931642050621);
}

#[test]
fn seed_for_hashes_utf16_code_units() {
    // A non-ASCII stem: one code unit for the accented letter, two for the
    // character outside the basic plane.
    assert_eq!(seed_for("\u{e9}\u{1d11e}", 1, -1), 14811931894275268276);
}

#[test]
fn seed_for_never_answers_zero() {
    for steps in 0..50 {
        assert_ne!(seed_for("x", steps, steps * 3), 0);
    }
}

fn counts() -> BoardCounts {
    BoardCounts { layers: 2, traces: 3, vias: 1, items: 7, snapshots: 0 }
}

fn area() -> IntBox {
    IntBox { ll: IntPoint { x: 0, y: 0 }, ur: IntPoint { x: 1000, y: 500 } }
}

#[test]
fn plan_follows_the_scripted_stream() {
    let mut rng = XorShift64::from_state(seed_for("board.dsn", 10, 3));
    let expected = [
        (
            Mutation::InsertObstacle {
                layer: 1,
                shape: IntBox { ll: IntPoint { x: 522, y: 455 }, ur: IntPoint { x: 768, y: 701 } },
            },
            11772744704287984046u64,
        ),
        (Mutation::Noop, 4575432318457039823),
        (
            Mutation::InsertTrace {
                layer: 1,
                net_no: 1,
                from: IntPoint { x: 95, y: 70 },
                to: IntPoint { x: 570, y: 314 },
            },
            6993121762959939314,
        ),
        (Mutation::RemoveTrace(Some(2)), 13847208269894743892),
        (Mutation::MoveVia(Some((0, -68, 44))), 17835497843185343913),
        (Mutation::RestoreSnapshot(None), 12883760336255046342),
        (
            Mutation::InsertTrace {
                layer: 0,
                net_no: 2,
                from: IntPoint { x: 947, y: 85 },
                to: IntPoint { x: 414, y: 188 },
            },
            5562919687569839188,
        ),
    ];
    for (want, state) in expected.iter() {
        let got = plan(&mut rng, &area(), &counts());
        assert_eq!(got, *want);
        assert_eq!(rng.state, *state);
    }
}

#[test]
fn plan_on_an_empty_board_still_advances_the_stream() {
    let empty = BoardCounts { layers: 1, traces: 0, vias: 0, items: 0, snapshots: 0 };
    let mut rng = XorShift64::new(5);
    for _ in 0..200 {
        let before = rng.state;
        let m = plan(&mut rng, &area(), &empty);
        assert_ne!(rng.state, before);
        match m {
            Mutation::RemoveTrace(i) => assert_eq!(i, None),
            Mutation::MoveVia(v) => assert_eq!(v, None),
            Mutation::RestoreSnapshot(i) => assert_eq!(i, None),
            Mutation::RefixItem(i) => assert_eq!(i, None),
            Mutation::InsertTrace { layer, net_no, from, to } => {
                assert_eq!(layer, 0);
                assert!(net_no == 1 || net_no == 2);
                assert_ne!(from, to);
                assert!(0 <= from.x && from.x < 1000 && 0 <= from.y && from.y < 500);
            }
            Mutation::InsertObstacle { shape, .. } => {
                let w = shape.ur.x - shape.ll.x;
                assert!((100..1000).contains(&w));
                assert_eq!(w, shape.ur.y - shape.ll.y);
            }
            _ => {}
        }
    }
}
