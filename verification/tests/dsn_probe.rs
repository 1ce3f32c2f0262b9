use copper_differential::dsn_probe::{board_dump, describe, design_name, ItemSummary};
use copper_differential::geometry::IntBox;
use copper_differential::kinds::{FixedState, ItemKind};

fn via(nets: Vec<i32>) -> ItemSummary {
    ItemSummary {
        kind: ItemKind::Via,
        first_layer: 0,
        last_layer: 3,
        nets,
        clearance_class: 1,
        fixed: FixedState::UserFixed,
        component: 0,
        bbox: IntBox::from_coords(-70, -70, 70, 70),
        tiles: 4,
    }
}

#[test]
fn design_names_drop_a_trailing_dsn() {
    assert_eq!(design_name("Issue026-J2_reference.dsn"), "Issue026-J2_reference");
    assert_eq!(design_name(".dsn"), "");
    assert_eq!(design_name("board.DSN"), "");
    assert_eq!(design_name("board.ses"), "");
    assert_eq!(design_name("dsn"), "");
}

#[test]
fn items_are_described_field_by_field() {
    assert_eq!(
        describe(&via(vec![2, 5])),
        "Via layers=0..3 nets=[2,5,] cl=1 fixed=USER_FIXED cmp=0 bbox=(-70,-70,70,70) tiles=4"
    );
    assert_eq!(
        describe(&via(vec![])),
        "Via layers=0..3 nets=[] cl=1 fixed=USER_FIXED cmp=0 bbox=(-70,-70,70,70) tiles=4"
    );
}

#[test]
fn the_board_dump_lists_items_then_counts_then_warnings() {
    let items = vec![(3u32, via(vec![1]))];
    assert_eq!(
        board_dump(2, &items, &["no outline".to_string()]),
        "layers 2\nitem 3 Via layers=0..3 nets=[1,] cl=1 fixed=USER_FIXED cmp=0 \
         bbox=(-70,-70,70,70) tiles=4\nitemcount 1\nwarning no outline\n"
    );
    assert_eq!(board_dump(1, &[], &[]), "layers 1\nitemcount 0\n");
}
