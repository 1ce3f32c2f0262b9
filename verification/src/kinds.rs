//! The enumerations the drivers print by name, held as the library's own
//! types, and the Java constant names they print.
use vstd::prelude::*;

verus! {

/// The angle regime a board routes in.
#[derive(Clone, Copy, PartialEq, Eq, Debug)]
pub enum AngleRestriction {
    Unrestricted,
    FortyFiveDegree,
    NinetyDegree,
}

/// How firmly an item is fixed on the board.
#[derive(Clone, Copy, PartialEq, Eq, Debug)]
pub enum FixedState {
    Unfixed,
    ShoveFixed,
    UserFixed,
    SystemFixed,
}

/// The class of a board item.
#[derive(Clone, Copy, PartialEq, Eq, Debug)]
pub enum ItemKind {
    Trace,
    Via,
    Pin,
    ObstacleArea,
    ConductionArea,
    ViaObstacleArea,
    ComponentObstacleArea,
    ComponentOutline,
    BoardOutline,
}

/// The state of a routing task.
#[derive(Clone, Copy, PartialEq, Eq, Debug)]
pub enum TaskState {
    Idle,
    Started,
    Running,
    Finished,
    Cancelled,
    TimedOut,
}

/// The stage a routing event belongs to.
#[derive(Clone, Copy, PartialEq, Eq, Debug)]
pub enum NamedAlgorithmType {
    Router,
    Optimizer,
}

/// The three kinds of unconnected-item findings.
#[derive(Clone, Copy, PartialEq, Eq, Debug)]
pub enum UnconnectedKind {
    UnconnectedItems,
    TrackDangling,
    ViaDangling,
}

/// The three forms of a convex tile shape.
#[derive(Clone, Copy, PartialEq, Eq, Debug)]
pub enum TileShapeKind {
    Box,
    Octagon,
    Simplex,
}

/// What a search-tree entry stands for: an item or an expansion room.
#[derive(Clone, Copy, PartialEq, Eq, Debug)]
pub enum TreeObject {
    Item(u32),
    Room(u32),
}

/// One entry of a search tree: the object and which of its shapes it is.
#[derive(Clone, Copy, PartialEq, Eq, Debug)]
pub struct TreeEntry {
    pub object: TreeObject,
    pub shape_index: usize,
}

/// `AngleRestriction.name()`.
pub fn angle_name(angle: AngleRestriction) -> (r: &'static str)
    ensures
        angle == AngleRestriction::Unrestricted ==> r@ == "NONE"@,
        angle == AngleRestriction::FortyFiveDegree ==> r@ == "FORTYFIVE_DEGREE"@,
        angle == AngleRestriction::NinetyDegree ==> r@ == "NINETY_DEGREE"@,
{
    match angle {
        AngleRestriction::Unrestricted => "NONE",
        AngleRestriction::FortyFiveDegree => "FORTYFIVE_DEGREE",
        AngleRestriction::NinetyDegree => "NINETY_DEGREE",
    }
}

/// `FixedState.name()`.
pub fn fixed_state_name(state: FixedState) -> (r: &'static str)
    ensures
        state == FixedState::Unfixed ==> r@ == "UNFIXED"@,
        state == FixedState::ShoveFixed ==> r@ == "SHOVE_FIXED"@,
        state == FixedState::UserFixed ==> r@ == "USER_FIXED"@,
        state == FixedState::SystemFixed ==> r@ == "SYSTEM_FIXED"@,
{
    match state {
        FixedState::Unfixed => "UNFIXED",
        FixedState::ShoveFixed => "SHOVE_FIXED",
        FixedState::UserFixed => "USER_FIXED",
        FixedState::SystemFixed => "SYSTEM_FIXED",
    }
}

/// The Java class name of an item (`getClass().getSimpleName()`).
pub fn class_name(kind: ItemKind) -> (r: &'static str)
    ensures
        kind == ItemKind::Trace ==> r@ == "PolylineTrace"@,
        kind == ItemKind::Via ==> r@ == "Via"@,
        kind == ItemKind::Pin ==> r@ == "Pin"@,
        kind == ItemKind::ObstacleArea ==> r@ == "ObstacleArea"@,
        kind == ItemKind::ConductionArea ==> r@ == "ConductionArea"@,
        kind == ItemKind::ViaObstacleArea ==> r@ == "ViaObstacleArea"@,
        kind == ItemKind::ComponentObstacleArea ==> r@ == "ComponentObstacleArea"@,
        kind == ItemKind::ComponentOutline ==> r@ == "ComponentOutline"@,
        kind == ItemKind::BoardOutline ==> r@ == "BoardOutline"@,
{
    match kind {
        ItemKind::Trace => "PolylineTrace",
        ItemKind::Via => "Via",
        ItemKind::Pin => "Pin",
        ItemKind::ObstacleArea => "ObstacleArea",
        ItemKind::ConductionArea => "ConductionArea",
        ItemKind::ViaObstacleArea => "ViaObstacleArea",
        ItemKind::ComponentObstacleArea => "ComponentObstacleArea",
        ItemKind::ComponentOutline => "ComponentOutline",
        ItemKind::BoardOutline => "BoardOutline",
    }
}

/// `TaskState.toString()`.
pub fn java_task_state(state: TaskState) -> (r: &'static str)
    ensures
        state == TaskState::Idle ==> r@ == "IDLE"@,
        state == TaskState::Started ==> r@ == "STARTED"@,
        state == TaskState::Running ==> r@ == "RUNNING"@,
        state == TaskState::Finished ==> r@ == "FINISHED"@,
        state == TaskState::Cancelled ==> r@ == "CANCELLED"@,
        state == TaskState::TimedOut ==> r@ == "TIMED_OUT"@,
{
    match state {
        TaskState::Idle => "IDLE",
        TaskState::Started => "STARTED",
        TaskState::Running => "RUNNING",
        TaskState::Finished => "FINISHED",
        TaskState::Cancelled => "CANCELLED",
        TaskState::TimedOut => "TIMED_OUT",
    }
}

/// `NamedAlgorithmType.toString()`.
pub fn java_algorithm_type(algorithm: NamedAlgorithmType) -> (r: &'static str)
    ensures
        algorithm == NamedAlgorithmType::Router ==> r@ == "ROUTER"@,
        algorithm == NamedAlgorithmType::Optimizer ==> r@ == "OPTIMIZER"@,
{
    match algorithm {
        NamedAlgorithmType::Router => "ROUTER",
        NamedAlgorithmType::Optimizer => "OPTIMIZER",
    }
}

/// The `type` literal of an unconnected-item finding.
pub fn kind_string(kind: UnconnectedKind) -> (r: &'static str)
    ensures
        kind == UnconnectedKind::UnconnectedItems ==> r@ == "unconnectedItems"@,
        kind == UnconnectedKind::TrackDangling ==> r@ == "track_dangling"@,
        kind == UnconnectedKind::ViaDangling ==> r@ == "via_dangling"@,
{
    match kind {
        UnconnectedKind::UnconnectedItems => "unconnectedItems",
        UnconnectedKind::TrackDangling => "track_dangling",
        UnconnectedKind::ViaDangling => "via_dangling",
    }
}

/// The representative class of a finding: `Pin`, `Trace`, or `other` (also
/// for an id no item answers).
pub fn kind_class(kind: Option<ItemKind>) -> (r: &'static str)
    ensures
        kind == Some(ItemKind::Pin) ==> r@ == "Pin"@,
        kind == Some(ItemKind::Trace) ==> r@ == "Trace"@,
        kind != Some(ItemKind::Pin) && kind != Some(ItemKind::Trace) ==> r@ == "other"@,
{
    match kind {
        Some(ItemKind::Pin) => "Pin",
        Some(ItemKind::Trace) => "Trace",
        _ => "other",
    }
}

/// The short class name of a tile shape: `Box`, `Octagon`, `Simplex`.
pub fn cls(kind: TileShapeKind) -> (r: &'static str)
    ensures
        kind == TileShapeKind::Box ==> r@ == "Box"@,
        kind == TileShapeKind::Octagon ==> r@ == "Octagon"@,
        kind == TileShapeKind::Simplex ==> r@ == "Simplex"@,
{
    match kind {
        TileShapeKind::Box => "Box",
        TileShapeKind::Octagon => "Octagon",
        TileShapeKind::Simplex => "Simplex",
    }
}

/// The Java class name of a tile shape: `IntBox`, `IntOctagon`, `Simplex`.
pub fn shape_class(kind: TileShapeKind) -> (r: &'static str)
    ensures
        kind == TileShapeKind::Box ==> r@ == "IntBox"@,
        kind == TileShapeKind::Octagon ==> r@ == "IntOctagon"@,
        kind == TileShapeKind::Simplex ==> r@ == "Simplex"@,
{
    match kind {
        TileShapeKind::Box => "IntBox",
        TileShapeKind::Octagon => "IntOctagon",
        TileShapeKind::Simplex => "Simplex",
    }
}

} // verus!
