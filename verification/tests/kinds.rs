use copper_differential::kinds::{
    angle_name, class_name, cls, fixed_state_name, java_algorithm_type, java_task_state,
    kind_class, kind_string, shape_class, AngleRestriction, FixedState, ItemKind,
    NamedAlgorithmType, TaskState, TileShapeKind, UnconnectedKind,
};

#[test]
fn java_constant_names() {
    assert_eq!(angle_name(AngleRestriction::Unrestricted), "NONE");
    assert_eq!(angle_name(AngleRestriction::FortyFiveDegree), "FORTYFIVE_DEGREE");
    assert_eq!(angle_name(AngleRestriction::NinetyDegree), "NINETY_DEGREE");
    assert_eq!(fixed_state_name(FixedState::Unfixed), "UNFIXED");
    assert_eq!(fixed_state_name(FixedState::ShoveFixed), "SHOVE_FIXED");
    assert_eq!(fixed_state_name(FixedState::UserFixed), "USER_FIXED");
    assert_eq!(fixed_state_name(FixedState::SystemFixed), "SYSTEM_FIXED");
    assert_eq!(java_task_state(TaskState::TimedOut), "TIMED_OUT");
    assert_eq!(java_task_state(TaskState::Idle), "IDLE");
    assert_eq!(java_algorithm_type(NamedAlgorithmType::Router), "ROUTER");
    assert_eq!(java_algorithm_type(NamedAlgorithmType::Optimizer), "OPTIMIZER");
}

#[test]
fn item_and_shape_class_names() {
    assert_eq!(class_name(ItemKind::Trace), "PolylineTrace");
    assert_eq!(class_name(ItemKind::ComponentObstacleArea), "ComponentObstacleArea");
    assert_eq!(class_name(ItemKind::BoardOutline), "BoardOutline");
    assert_eq!(kind_string(UnconnectedKind::UnconnectedItems), "unconnectedItems");
    assert_eq!(kind_string(UnconnectedKind::TrackDangling), "track_dangling");
    assert_eq!(kind_string(UnconnectedKind::ViaDangling), "via_dangling");
    assert_eq!(kind_class(Some(ItemKind::Pin)), "Pin");
    assert_eq!(kind_class(Some(ItemKind::Trace)), "Trace");
    assert_eq!(kind_class(Some(ItemKind::Via)), "other");
    assert_eq!(kind_class(None), "other");
    assert_eq!(cls(TileShapeKind::Octagon), "Octagon");
    assert_eq!(shape_class(TileShapeKind::Box), "IntBox");
    assert_eq!(shape_class(TileShapeKind::Simplex), "Simplex");
}
