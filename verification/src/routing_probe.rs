//! The routing probes' renderings of lines and net lists, the names they
//! print, and the families of target locations the via probe walks.
use vstd::prelude::*;
use crate::board_probe::i32_values;
use crate::geometry::{IntPoint, Line, Point};
use crate::kinds::{angle_name, class_name, fixed_state_name, AngleRestriction, FixedState, ItemKind};
use crate::render::{paren_point, push_paren_point};
use crate::text::{bracketed, bracketed_list, int_values};

verus! {

/// `dump_line(line)`: `(ax,ay)->(bx,by)`.
pub fn dump_line(line: &Line) -> (out: String)
    ensures
        out@ == paren_point(line.a) + seq!['-', '>'] + paren_point(line.b),
{
    let mut out = String::new();
    push_paren_point(&mut out, line.a);
    crate::text::push_char(&mut out, '-');
    crate::text::push_char(&mut out, '>');
    push_paren_point(&mut out, line.b);
    assert(out@ =~= paren_point(line.a) + seq!['-', '>'] + paren_point(line.b));
    out
}

/// `dump_nets(net_nos)`: the net numbers as `[a,b,c]`.
pub fn dump_nets(net_nos: &[i32]) -> (out: String)
    ensures
        out@ == bracketed(i32_values(net_nos@), seq![',']),
{
    let mut w: Vec<i64> = Vec::new();
    let mut i: usize = 0;
    while i < net_nos.len()
        invariant
            i <= net_nos@.len(),
            w@.len() == i,
            forall|k: int| 0 <= k < i ==> #[trigger] w@[k] == net_nos@[k] as i64,
        decreases net_nos.len() - i,
    {
        w.push(net_nos[i] as i64);
        i = i + 1;
    }
    assert(int_values(w@) =~= i32_values(net_nos@));
    proof {
        reveal_strlit(",");
        assert(","@ =~= seq![',']);
    }
    bracketed_list(&w, ",")
}

/// `dump_fixed_state(state)`: the Java constant name of the state.
pub fn dump_fixed_state(state: FixedState) -> (r: &'static str)
    ensures
        state == FixedState::Unfixed ==> r@ == "UNFIXED"@,
        state == FixedState::ShoveFixed ==> r@ == "SHOVE_FIXED"@,
        state == FixedState::UserFixed ==> r@ == "USER_FIXED"@,
        state == FixedState::SystemFixed ==> r@ == "SYSTEM_FIXED"@,
{
    fixed_state_name(state)
}

/// `regime_name(angle)`: the Java constant name of the angle regime.
pub fn regime_name(angle: AngleRestriction) -> (r: &'static str)
    ensures
        angle == AngleRestriction::Unrestricted ==> r@ == "NONE"@,
        angle == AngleRestriction::FortyFiveDegree ==> r@ == "FORTYFIVE_DEGREE"@,
        angle == AngleRestriction::NinetyDegree ==> r@ == "NINETY_DEGREE"@,
{
    angle_name(angle)
}

/// The Java class name of an item of the given kind.
pub fn item_type_name(kind: ItemKind) -> (r: &'static str)
    ensures
        kind == ItemKind::Trace ==> r@ == "PolylineTrace"@,
        kind == ItemKind::Via ==> r@ == "Via"@,
        kind == ItemKind::Pin ==> r@ == "Pin"@,
        kind == ItemKind::ObstacleArea ==> r@ == "ObstacleArea"@,
        kind == ItemKind::ConductionArea ==> r@ == "ConductionArea"@,
        kind == ItemKind::ViaObstacleArea ==> r@ == "ViaObstacleArea"@,
        kind == ItemKind::ComponentObstacleArea ==> r@ == "ComponentObstacleArea"@,
        kind == ItemKind::ComponentOutline ==> r@ == "ComponentOutline"@,
        kind == ItemKind::BoardOutline ==> r@ == "BoardOutline"@,
{
    class_name(kind)
}

/// `p(x, y)`: the integral point `(x, y)`.
pub fn p(x: i32, y: i32) -> (r: Point)
    ensures
        r == Point::Int(IntPoint { x, y }),
{
    Point::Int(IntPoint { x, y })
}

/// The point `(x, y)`.
pub open spec fn at(x: int, y: int) -> IntPoint {
    IntPoint { x: x as i32, y: y as i32 }
}

/// The six points at distance `d` from `c`: right, up, up-right, left, down,
/// down-left.
pub open spec fn offsets(c: IntPoint, d: int) -> Seq<IntPoint> {
    seq![
        at(c.x + d, c.y as int),
        at(c.x as int, c.y + d),
        at(c.x + d, c.y + d),
        at(c.x - d, c.y as int),
        at(c.x as int, c.y - d),
        at(c.x - d, c.y - d),
    ]
}

/// The first family of target locations: the rounded second corner and the
/// rounded next-to-last corner of the trace, the via centre, then the six
/// offsets at distances 1, 1000, 10000 and 100000.
pub open spec fn targets_a_spec(center: IntPoint, second: IntPoint, next_to_last: IntPoint) -> Seq<
    IntPoint,
> {
    seq![second, next_to_last, center] + offsets(center, 1) + offsets(center, 1000) + offsets(
        center,
        10000,
    ) + offsets(center, 100000)
}

/// Whether a coordinate can move 100000 either way without overflow.
pub open spec fn has_room(v: i32) -> bool {
    i32::MIN + 100000 <= v <= i32::MAX - 100000
}

fn push_offsets(out: &mut Vec<IntPoint>, c: IntPoint, d: i32)
    requires
        0 < d <= 100000,
        has_room(c.x),
        has_room(c.y),
    ensures
        final(out)@ == old(out)@ + offsets(c, d as int),
{
    out.push(IntPoint { x: c.x + d, y: c.y });
    out.push(IntPoint { x: c.x, y: c.y + d });
    out.push(IntPoint { x: c.x + d, y: c.y + d });
    out.push(IntPoint { x: c.x - d, y: c.y });
    out.push(IntPoint { x: c.x, y: c.y - d });
    out.push(IntPoint { x: c.x - d, y: c.y - d });
    assert(final(out)@ =~= old(out)@ + offsets(c, d as int));
}

/// `targets_a(center, second, next_to_last)`: see [`targets_a_spec`]; the two
/// corners are the trace's, already rounded.
pub fn targets_a(center: IntPoint, second: IntPoint, next_to_last: IntPoint) -> (result: Vec<
    IntPoint,
>)
    requires
        has_room(center.x),
        has_room(center.y),
    ensures
        result@ == targets_a_spec(center, second, next_to_last),
{
    let mut result: Vec<IntPoint> = Vec::new();
    result.push(second);
    result.push(next_to_last);
    result.push(center);
    push_offsets(&mut result, center, 1);
    push_offsets(&mut result, center, 1000);
    push_offsets(&mut result, center, 10_000);
    push_offsets(&mut result, center, 100_000);
    assert(result@ =~= targets_a_spec(center, second, next_to_last));
    result
}

/// The second family of target locations.
pub open spec fn targets_b_spec(center: IntPoint, c1: IntPoint, c2: IntPoint) -> Seq<IntPoint> {
    seq![
        at(center.x as int, c1.y as int),
        at(c1.x as int, center.y as int),
        at(center.x as int, c2.y as int),
        at(c2.x as int, center.y as int),
        c1,
        c2,
        center,
        at(center.x + 1, center.y as int),
        at(center.x + 1, center.y + 1),
        at(center.x + 1000, center.y + 1000),
        at(center.x - 1000, center.y as int),
    ]
}

/// `targets_b(center, c1, c2)`: the centre projected on the two corners' axes,
/// the corners, the centre, and four fixed offsets of it.
pub fn targets_b(center: IntPoint, c1: IntPoint, c2: IntPoint) -> (result: Vec<IntPoint>)
    requires
        i32::MIN + 1000 <= center.x <= i32::MAX - 1000,
        center.y <= i32::MAX - 1000,
    ensures
        result@ == targets_b_spec(center, c1, c2),
{
    let result = vec![
        IntPoint { x: center.x, y: c1.y },
        IntPoint { x: c1.x, y: center.y },
        IntPoint { x: center.x, y: c2.y },
        IntPoint { x: c2.x, y: center.y },
        c1,
        c2,
        center,
        IntPoint { x: center.x + 1, y: center.y },
        IntPoint { x: center.x + 1, y: center.y + 1 },
        IntPoint { x: center.x + 1000, y: center.y + 1000 },
        IntPoint { x: center.x - 1000, y: center.y },
    ];
    assert(result@ =~= targets_b_spec(center, c1, c2));
    result
}

/// Whether `a` comes before `b`: a smaller `x`, or the same `x` and a smaller
/// `y`.
pub open spec fn point_before(a: IntPoint, b: IntPoint) -> bool {
    a.x < b.x || (a.x == b.x && a.y < b.y)
}

/// The sort key of a trace from its first and last corner: the corner that
/// comes later (`last` where `first` comes before it, `first` otherwise).
pub open spec fn trace_key_spec(first: IntPoint, last: IntPoint) -> IntPoint {
    if point_before(first, last) {
        last
    } else {
        first
    }
}

/// `trace_key(first, last)`: see [`trace_key_spec`].
pub fn trace_key(first: IntPoint, last: IntPoint) -> (k: IntPoint)
    ensures
        k == trace_key_spec(first, last),
{
    if first.x < last.x || (first.x == last.x && first.y < last.y) {
        last
    } else {
        first
    }
}

/// A trace's key does not depend on which end is called first, and no corner
/// comes after it.
pub proof fn lemma_trace_key_symmetric(a: IntPoint, b: IntPoint)
    ensures
        trace_key_spec(a, b) == trace_key_spec(b, a),
        !point_before(trace_key_spec(a, b), a),
        !point_before(trace_key_spec(a, b), b),
        trace_key_spec(a, b) == a || trace_key_spec(a, b) == b,
{
}

/// What the via-classification probe knows of one contact of a via: whether
/// the board still holds it, whether it is shove-fixed, a trace, or a
/// conduction area, and, for a trace, whether its first or last corner lies
/// within the via's tolerance of the via's centre.
#[derive(Clone, Copy, PartialEq, Eq, Debug)]
pub struct ViaContact {
    pub present: bool,
    pub shove_fixed: bool,
    pub is_trace: bool,
    pub is_conduction_area: bool,
    pub first_within: bool,
    pub last_within: bool,
}

/// The verdicts of the via classification.
#[derive(Clone, Copy, PartialEq, Eq, Debug)]
pub enum ViaClass {
    ShoveFixed,
    PlaneOrFanoutOneContact,
    WrongContactCount,
    UnusableContact,
    PlaneOrFanoutConduction,
    NotAtEndpoint,
    TwoTraces,
}

/// A contact that is not a usable trace: shove-fixed or not a trace.
pub open spec fn blocks(c: ViaContact) -> bool {
    c.shove_fixed || !c.is_trace
}

/// A contact the classification cannot use: gone from the board, or blocking
/// without being a conduction area.
pub open spec fn unusable(c: ViaContact) -> bool {
    !c.present || (blocks(c) && !c.is_conduction_area)
}

/// A trace contact that reaches the via with one of its ends.
pub open spec fn reaches(c: ViaContact) -> bool {
    c.first_within || c.last_within
}

/// The verdict on a via, shove-fixed or not, with `contacts` in the order the
/// board lists them: shove-fixed first; then one contact, a count other than
/// two; then a contact it cannot use, in order; then a conduction area among
/// the two; then a trace that reaches the via with neither end; else two
/// traces.
pub open spec fn via_class(via_shove_fixed: bool, contacts: Seq<ViaContact>) -> ViaClass {
    if via_shove_fixed {
        ViaClass::ShoveFixed
    } else if contacts.len() == 1 {
        ViaClass::PlaneOrFanoutOneContact
    } else if contacts.len() != 2 {
        ViaClass::WrongContactCount
    } else if unusable(contacts[0]) || unusable(contacts[1]) {
        ViaClass::UnusableContact
    } else if blocks(contacts[0]) || blocks(contacts[1]) {
        ViaClass::PlaneOrFanoutConduction
    } else if !reaches(contacts[0]) || !reaches(contacts[1]) {
        ViaClass::NotAtEndpoint
    } else {
        ViaClass::TwoTraces
    }
}

/// `classify(via)`: see [`via_class`].
pub fn classify(via_shove_fixed: bool, contacts: &[ViaContact]) -> (c: ViaClass)
    ensures
        c == via_class(via_shove_fixed, contacts@),
{
    if via_shove_fixed {
        return ViaClass::ShoveFixed;
    }
    if contacts.len() == 1 {
        return ViaClass::PlaneOrFanoutOneContact;
    }
    if contacts.len() != 2 {
        return ViaClass::WrongContactCount;
    }
    let mut traces: Vec<ViaContact> = Vec::new();
    let mut is_plane_or_fanout_via = false;
    let mut k: usize = 0;
    while k < 2
        invariant
            k <= 2,
            !via_shove_fixed,
            contacts@.len() == 2,
            forall|j: int| 0 <= j < k ==> !unusable(#[trigger] contacts@[j]),
            is_plane_or_fanout_via == exists|j: int| 0 <= j < k && blocks(#[trigger] contacts@[j]),
            !is_plane_or_fanout_via ==> traces@ == contacts@.take(k as int),
        decreases 2 - k,
    {
        let contact = contacts[k];
        assert(k == 0 || k == 1);
        if !contact.present {
            assert(unusable(contacts@[k as int]));
            assert(unusable(contacts@[0]) || unusable(contacts@[1]));
            return ViaClass::UnusableContact;
        }
        if contact.shove_fixed || !contact.is_trace {
            if contact.is_conduction_area {
                is_plane_or_fanout_via = true;
            } else {
                assert(unusable(contacts@[k as int]));
                assert(unusable(contacts@[0]) || unusable(contacts@[1]));
                return ViaClass::UnusableContact;
            }
        } else {
            assert(contacts@.take(k + 1) =~= contacts@.take(k as int).push(contact));
            traces.push(contact);
        }
        k = k + 1;
    }
    assert(!unusable(contacts@[0]) && !unusable(contacts@[1]));
    if is_plane_or_fanout_via {
        return ViaClass::PlaneOrFanoutConduction;
    }
    assert(!blocks(contacts@[0]) && !blocks(contacts@[1]));
    assert(traces@ =~= contacts@);
    let mut m: usize = 0;
    while m < traces.len()
        invariant
            traces@ == contacts@,
            !via_shove_fixed,
            contacts@.len() == 2,
            !unusable(contacts@[0]) && !unusable(contacts@[1]),
            !blocks(contacts@[0]) && !blocks(contacts@[1]),
            m <= 2,
            forall|j: int| 0 <= j < m ==> reaches(#[trigger] contacts@[j]),
        decreases traces.len() - m,
    {
        let trace = traces[m];
        if !trace.first_within && !trace.last_within {
            assert(!reaches(contacts@[m as int]));
            assert(m == 0 || m == 1);
            assert(!reaches(contacts@[0]) || !reaches(contacts@[1]));
            return ViaClass::NotAtEndpoint;
        }
        m = m + 1;
    }
    assert(reaches(contacts@[0]) && reaches(contacts@[1]));
    ViaClass::TwoTraces
}

/// What each verdict means for a via that is not shove-fixed with two
/// contacts, read off the contacts' own flags: a contact that is gone, or is
/// shove-fixed or no trace without being a conduction area, makes it
/// unusable; otherwise a conduction area among them makes it a plane or
/// fanout via; two traces that are not shove-fixed make it a two-trace via
/// when both reach the via with an end, and a via not at an endpoint
/// otherwise. A shove-fixed via is that, whatever its contacts; one contact
/// and any count but two have their own verdicts.
pub proof fn lemma_via_verdicts(via_shove_fixed: bool, contacts: Seq<ViaContact>)
    ensures
        (via_class(via_shove_fixed, contacts) == ViaClass::ShoveFixed) == via_shove_fixed,
        !via_shove_fixed && contacts.len() == 1 ==> via_class(via_shove_fixed, contacts)
            == ViaClass::PlaneOrFanoutOneContact,
        !via_shove_fixed && contacts.len() != 1 && contacts.len() != 2 ==> via_class(
            via_shove_fixed,
            contacts,
        ) == ViaClass::WrongContactCount,
        !via_shove_fixed && contacts.len() == 2 ==> ({
            let a = contacts[0];
            let b = contacts[1];
            let unusable_a = !a.present || ((a.shove_fixed || !a.is_trace) && !a.is_conduction_area);
            let unusable_b = !b.present || ((b.shove_fixed || !b.is_trace) && !b.is_conduction_area);
            let plain_a = !a.shove_fixed && a.is_trace;
            let plain_b = !b.shove_fixed && b.is_trace;
            let ends_a = a.first_within || a.last_within;
            let ends_b = b.first_within || b.last_within;
            &&& (via_class(via_shove_fixed, contacts) == ViaClass::UnusableContact) == (unusable_a
                || unusable_b)
            &&& (via_class(via_shove_fixed, contacts) == ViaClass::PlaneOrFanoutConduction) == (
            !unusable_a && !unusable_b && (!plain_a || !plain_b))
            &&& (via_class(via_shove_fixed, contacts) == ViaClass::NotAtEndpoint) == (a.present
                && b.present && plain_a && plain_b && (!ends_a || !ends_b))
            &&& (via_class(via_shove_fixed, contacts) == ViaClass::TwoTraces) == (a.present
                && b.present && plain_a && plain_b && ends_a && ends_b)
        }),
        via_class(via_shove_fixed, contacts) == ViaClass::TwoTraces ==> contacts.len() == 2,
{
}

/// The word the probe prints for a verdict.
pub open spec fn via_class_word(c: ViaClass) -> Seq<char> {
    match c {
        ViaClass::ShoveFixed => "SHOVE_FIXED"@,
        ViaClass::PlaneOrFanoutOneContact => "PLANE_OR_FANOUT_ONE_CONTACT"@,
        ViaClass::WrongContactCount => "WRONG_CONTACT_COUNT"@,
        ViaClass::UnusableContact => "UNUSABLE_CONTACT"@,
        ViaClass::PlaneOrFanoutConduction => "PLANE_OR_FANOUT_CONDUCTION"@,
        ViaClass::NotAtEndpoint => "NOT_AT_ENDPOINT"@,
        ViaClass::TwoTraces => "TWO_TRACES"@,
    }
}

/// `via_class_name(c)`: see [`via_class_word`].
pub fn via_class_name(c: ViaClass) -> (r: &'static str)
    ensures
        r@ == via_class_word(c),
{
    match c {
        ViaClass::ShoveFixed => "SHOVE_FIXED",
        ViaClass::PlaneOrFanoutOneContact => "PLANE_OR_FANOUT_ONE_CONTACT",
        ViaClass::WrongContactCount => "WRONG_CONTACT_COUNT",
        ViaClass::UnusableContact => "UNUSABLE_CONTACT",
        ViaClass::PlaneOrFanoutConduction => "PLANE_OR_FANOUT_CONDUCTION",
        ViaClass::NotAtEndpoint => "NOT_AT_ENDPOINT",
        ViaClass::TwoTraces => "TWO_TRACES",
    }
}

} // verus!
