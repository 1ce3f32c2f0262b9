use copper_differential::geometry::IntBox;
use copper_differential::tree_replay_probe::{plan_step, query_box, TreeStep};
use copper_differential::xorshift::XorShift64;
use copper_differential::geometry::{IntOctagon, RegularTileShape};
use copper_differential::kinds::{TreeEntry, TreeObject};
use copper_differential::tree_probe::{overlaps_line, tree_listing, ShapeNode};
use copper_differential::tree_replay_probe::replay_listing;

fn ibox(c: (i32, i32, i32, i32)) -> IntBox {
    IntBox::from_coords(c.0, c.1, c.2, c.3)
}

fn shapes_of(step: &TreeStep) -> Vec<IntBox> {
    match step {
        TreeStep::Insert(v) => v.clone(),
        _ => panic!("expected an insert"),
    }
}

fn picks_of(step: &TreeStep) -> Vec<Option<usize>> {
    match step {
        TreeStep::Remove(v) => v.clone(),
        _ => panic!("expected a removal"),
    }
}

#[test]
fn an_empty_tree_always_inserts() {
    let mut rng = XorShift64::new(1);
    let step = plan_step(&mut rng, 0, 62);
    assert_eq!(
        shapes_of(&step),
        vec![
            ibox((-43, 945, 41, 1055)),
            ibox((-179, 633, -139, 732)),
            ibox((304, 453, 343, 485)),
        ]
    );
    assert_eq!(rng.state, 10440568676385178531);
    assert_eq!(query_box(&mut rng), ibox((848, 359, 1094, 585)));
}

#[test]
fn later_steps_insert_on_low_rolls() {
    let mut rng = XorShift64::new(1);
    let _ = plan_step(&mut rng, 0, 62);
    assert_eq!(shapes_of(&plan_step(&mut rng, 3, 62)), vec![ibox((945, 125, 1009, 246))]);
}

#[test]
fn removals_draw_holes_and_shrinking_indices() {
    let mut rng = XorShift64::new(7);
    assert_eq!(picks_of(&plan_step(&mut rng, 4, 0)), vec![Some(3)]);
    assert_eq!(picks_of(&plan_step(&mut rng, 4, 0)), vec![None, Some(3)]);
    assert_eq!(picks_of(&plan_step(&mut rng, 4, 0)), vec![Some(0), None]);
}

#[test]
fn a_roll_just_above_the_inserts_rekeys() {
    let mut rng = XorShift64::new(5);
    match plan_step(&mut rng, 4, 0) {
        TreeStep::Rekey { index, new_index } => {
            assert_eq!((index, new_index), (3, 1));
        }
        _ => panic!("expected a re-key"),
    }
    assert_eq!(rng.state, 17826820291483596301);
}


fn leaf(id: u32, index: u32, c: (i32, i32, i32, i32)) -> ShapeNode {
    ShapeNode::Leaf {
        object: TreeObject::Item(id),
        shape_index: index,
        bounds: RegularTileShape::Box(ibox(c)),
    }
}

fn small_tree() -> ShapeNode {
    ShapeNode::Inner {
        bounds: RegularTileShape::Box(ibox((0, 0, 30, 30))),
        first: Box::new(leaf(1, 0, (0, 0, 10, 10))),
        second: Box::new(ShapeNode::Inner {
            bounds: RegularTileShape::Box(ibox((20, 0, 30, 30))),
            first: Box::new(leaf(2, 0, (20, 0, 30, 10))),
            second: Box::new(leaf(4, 1, (20, 20, 30, 30))),
        }),
    }
}

#[test]
fn a_tree_is_listed_with_its_indented_dump() {
    let tree = small_tree();
    assert_eq!(
        tree_listing("after inserting #3", 3, Some(&tree)),
        "--- after inserting #3 leafCount=3\n\
         Inner (0,0,30,30)\n  Leaf #1/0 (0,0,10,10)\n  Inner (20,0,30,30)\n    \
         Leaf #2/0 (20,0,30,10)\n    Leaf #4/1 (20,20,30,30)\n"
    );
    assert_eq!(tree_listing("empty", 0, None), "--- empty leafCount=0\n(empty)\n");
}

#[test]
fn the_replayed_tree_prints_shapes_and_one_space_indents() {
    let tree = ShapeNode::Inner {
        bounds: RegularTileShape::Octagon(IntOctagon {
            left_x: 0,
            bottom_y: 0,
            right_x: 30,
            top_y: 30,
            upper_left_diagonal_x: -30,
            lower_right_diagonal_x: 30,
            lower_left_diagonal_x: 0,
            upper_right_diagonal_x: 60,
        }),
        first: Box::new(leaf(1, 0, (0, 0, 10, 10))),
        second: Box::new(leaf(2, 2, (20, 0, 30, 10))),
    };
    assert_eq!(
        replay_listing("op3", 2, Some(&tree)),
        "== op3 n=2 rootNull=false\nI O(0,0,30,30,-30,30,0,60)\n L #1/0 B(0,0,10,10)\n \
         L #2/2 B(20,0,30,10)\n"
    );
    assert_eq!(replay_listing("op0", 0, None), "== op0 n=0 rootNull=true\n");
}

#[test]
fn overlap_lines_drop_the_trailing_space() {
    let entries = [
        TreeEntry { object: TreeObject::Item(1), shape_index: 0 },
        TreeEntry { object: TreeObject::Item(7), shape_index: 2 },
    ];
    assert_eq!(overlaps_line("Q1 (0,0,10,10)", &entries), "Q1 (0,0,10,10) -> #1/0 #7/2");
    assert_eq!(overlaps_line("Q4 (200,200,210,210)", &[]), "Q4 (200,200,210,210) ->");
}

#[test]
fn removals_only_name_live_leaves() {
    let mut rng = XorShift64::new(11);
    let mut live: Vec<u32> = Vec::new();
    let mut next = 0u32;
    for _ in 0..300 {
        match plan_step(&mut rng, live.len(), 40) {
            TreeStep::Insert(shapes) => {
                for _ in shapes {
                    live.push(next);
                    next += 1;
                }
            }
            TreeStep::Rekey { index, .. } => assert!(index < live.len()),
            TreeStep::Remove(picks) => {
                for pick in picks.into_iter().flatten() {
                    assert!(pick < live.len());
                    live.remove(pick);
                }
            }
        }
    }
}
