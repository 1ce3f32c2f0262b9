//! The board probes' renderings: net arrays, boxes and octagons, points and
//! point lists, id lists, and the small conversions around them.
use vstd::prelude::*;
use crate::geometry::{IntBox, IntOctagon, Point};
use crate::kinds::TreeObject;
use crate::render::{
    box_ordinates, octagon_values, paren_point, push_box_ordinates, push_octagon_values,
    push_paren_point,
};
use crate::text::{bracketed, bracketed_list, decimal, int_values, push_char, push_digits, push_str};

verus! {

/// The integer values of `v`.
pub open spec fn i32_values(v: Seq<i32>) -> Seq<int> {
    v.map_values(|x: i32| x as int)
}

/// The integer values of `v`.
pub open spec fn u32_values(v: Seq<u32>) -> Seq<int> {
    v.map_values(|x: u32| x as int)
}

fn widen_i32(v: &[i32]) -> (w: Vec<i64>)
    ensures
        int_values(w@) == i32_values(v@),
{
    let mut w: Vec<i64> = Vec::new();
    let mut i: usize = 0;
    while i < v.len()
        invariant
            i <= v@.len(),
            w@.len() == i,
            forall|k: int| 0 <= k < i ==> #[trigger] w@[k] == v@[k] as i64,
        decreases v.len() - i,
    {
        w.push(v[i] as i64);
        i = i + 1;
    }
    assert(int_values(w@) =~= i32_values(v@));
    w
}

/// Widens ids for rendering.
pub fn widen_u32(v: &[u32]) -> (w: Vec<i64>)
    ensures
        int_values(w@) == u32_values(v@),
{
    let mut w: Vec<i64> = Vec::new();
    let mut i: usize = 0;
    while i < v.len()
        invariant
            i <= v@.len(),
            w@.len() == i,
            forall|k: int| 0 <= k < i ==> #[trigger] w@[k] == v@[k] as i64,
        decreases v.len() - i,
    {
        w.push(v[i] as i64);
        i = i + 1;
    }
    assert(int_values(w@) =~= u32_values(v@));
    w
}

/// `net_array(net_nos)`: `Arrays.toString(int[])`, `[a, b, c]`.
pub fn net_array(net_nos: &[i32]) -> (out: String)
    ensures
        out@ == bracketed(i32_values(net_nos@), seq![',', ' ']),
{
    let w = widen_i32(net_nos);
    proof {
        reveal_strlit(", ");
        assert(", "@ =~= seq![',', ' ']);
    }
    bracketed_list(&w, ", ")
}

/// `boxs(b)`: `Box[llx,lly..urx,ury]`.
pub fn boxs(b: &IntBox) -> (out: String)
    ensures
        out@ == seq!['B', 'o', 'x', '['] + box_ordinates(*b, seq![','], seq!['.', '.']) + seq![
            ']',
        ],
{
    let mut out = String::new();
    proof {
        reveal_strlit("Box[");
        reveal_strlit(",");
        reveal_strlit("..");
    }
    push_str(&mut out, "Box[");
    push_box_ordinates(&mut out, b, ",", "..");
    push_char(&mut out, ']');
    assert(out@ =~= seq!['B', 'o', 'x', '['] + box_ordinates(*b, seq![','], seq!['.', '.'])
        + seq![']']);
    out
}

/// `oct(o)`: `Oct[` and the eight values of the octagon, `]`.
pub fn oct(o: &IntOctagon) -> (out: String)
    ensures
        out@ == seq!['O', 'c', 't', '['] + octagon_values(*o) + seq![']'],
{
    let mut out = String::new();
    proof {
        reveal_strlit("Oct[");
    }
    push_str(&mut out, "Oct[");
    push_octagon_values(&mut out, o);
    push_char(&mut out, ']');
    assert(out@ =~= seq!['O', 'c', 't', '['] + octagon_values(*o) + seq![']']);
    out
}

/// How `point` renders: `null` for no point, `(x,y)` for an integral one.
pub open spec fn point_text(p: Option<Point>) -> Seq<char> {
    match p {
        None => seq!['n', 'u', 'l', 'l'],
        Some(q) => paren_point(q->Int_0),
    }
}

/// `point(p)`: see [`point_text`]; a rational point is not printable here.
pub fn point(p: Option<&Point>) -> (out: String)
    requires
        p matches Some(q) ==> q is Int,
    ensures
        out@ == point_text(match p {
            Some(q) => Some(*q),
            None => None,
        }),
{
    let mut out = String::new();
    match p {
        None => {
            proof {
                reveal_strlit("null");
            }
            push_str(&mut out, "null");
        },
        Some(Point::Int(q)) => push_paren_point(&mut out, *q),
        Some(Point::Rational) => {},
    }
    assert(out@ =~= point_text(match p {
        Some(q) => Some(*q),
        None => None,
    }));
    out
}

/// The points of `arr` as `(x,y)`, separated by single spaces.
pub open spec fn spaced_points(arr: Seq<Point>) -> Seq<char>
    decreases arr.len(),
{
    if arr.len() == 0 {
        Seq::<char>::empty()
    } else if arr.len() == 1 {
        paren_point(arr[0]->Int_0)
    } else {
        spaced_points(arr.drop_last()) + seq![' '] + paren_point(arr.last()->Int_0)
    }
}

/// `points(arr)`: `[`, the points separated by spaces, `]`.
pub fn points(arr: &[Point]) -> (out: String)
    requires
        forall|k: int| 0 <= k < arr@.len() ==> #[trigger] arr@[k] is Int,
    ensures
        out@ == seq!['['] + spaced_points(arr@) + seq![']'],
{
    let mut out = String::new();
    push_char(&mut out, '[');
    let mut i: usize = 0;
    while i < arr.len()
        invariant
            i <= arr@.len(),
            forall|k: int| 0 <= k < arr@.len() ==> #[trigger] arr@[k] is Int,
            out@ == seq!['['] + spaced_points(arr@.take(i as int)),
        decreases arr.len() - i,
    {
        assert(arr@.take(i + 1).drop_last() =~= arr@.take(i as int));
        if i > 0 {
            push_char(&mut out, ' ');
        }
        match arr[i] {
            Point::Int(q) => push_paren_point(&mut out, q),
            Point::Rational => {
                assert(arr@[i as int] is Int);
            },
        }
        i = i + 1;
        proof {
            if i == 1 {
                assert(arr@.take(1)[0] == arr@[0]);
            }
        }
        assert(out@ =~= seq!['['] + spaced_points(arr@.take(i as int)));
    }
    assert(arr@.take(arr.len() as int) =~= arr@);
    push_char(&mut out, ']');
    out
}

/// `ids(items)`: the ids in the given order, space separated, in brackets.
pub fn ids(items: &[u32]) -> (out: String)
    ensures
        out@ == bracketed(u32_values(items@), seq![' ']),
{
    let w = widen_u32(items);
    proof {
        reveal_strlit(" ");
        assert(" "@ =~= seq![' ']);
    }
    bracketed_list(&w, " ")
}

/// The item ids of a list of tree objects.
pub open spec fn item_ids(objects: Seq<TreeObject>) -> Seq<u32> {
    objects.map_values(|o: TreeObject| o->Item_0)
}

/// `objects(objects)`: the item ids of the set, in its order, space
/// separated, in brackets; the set holds no expansion room here.
pub fn objects(set: &[TreeObject]) -> (out: String)
    requires
        forall|k: int| 0 <= k < set@.len() ==> #[trigger] set@[k] is Item,
    ensures
        out@ == bracketed(u32_values(item_ids(set@)), seq![' ']),
{
    let mut v: Vec<u32> = Vec::new();
    let mut i: usize = 0;
    while i < set.len()
        invariant
            i <= set@.len(),
            v@.len() == i,
            forall|k: int| 0 <= k < set@.len() ==> #[trigger] set@[k] is Item,
            forall|k: int| 0 <= k < i ==> #[trigger] v@[k] == set@[k]->Item_0,
        decreases set.len() - i,
    {
        let o = set[i];
        assert(o == set@[i as int]);
        assert(o is Item);
        match o {
            TreeObject::Item(id) => v.push(id),
            TreeObject::Room(_) => v.push(0),
        }
        i = i + 1;
    }
    assert(v@ =~= item_ids(set@));
    ids(v.as_slice())
}

/// `opt_id(id)`: `null`, or the id in decimal.
pub fn opt_id(id: Option<u32>) -> (out: String)
    ensures
        id is None ==> out@ == "null"@,
        id matches Some(n) ==> out@ == decimal(n as int),
{
    let mut out = String::new();
    match id {
        None => {
            push_str(&mut out, "null");
            assert(out@ =~= "null"@);
        },
        Some(n) => {
            push_digits(&mut out, n as u64);
            assert(out@ =~= decimal(n as int));
        },
    }
    out
}

/// `layer_or_minus_one(layer)`: the layer index as an `i32`, or -1.
pub fn layer_or_minus_one(layer: Option<usize>) -> (r: i32)
    ensures
        layer is None ==> r == -1,
        layer matches Some(l) ==> r == l as i32,
{
    match layer {
        None => -1,
        Some(l) => l as i32,
    }
}

/// `descending(set)`: the ids of a set, held in ascending order as a set
/// orders them, largest first.
pub fn descending(set: &[u32]) -> (out: Vec<u32>)
    requires
        forall|a: int, b: int| 0 <= a < b < set@.len() ==> set@[a] < set@[b],
    ensures
        out@ == set@.reverse(),
        forall|a: int, b: int| 0 <= a < b < out@.len() ==> out@[a] > out@[b],
{
    let mut out: Vec<u32> = Vec::new();
    let mut i: usize = set.len();
    while i > 0
        invariant
            i <= set@.len(),
            out@ == set@.skip(i as int).reverse(),
        decreases i,
    {
        i = i - 1;
        out.push(set[i]);
        assert(out@ =~= set@.skip(i as int).reverse());
    }
    assert(set@.skip(0) =~= set@);
    out
}

/// One layer's part of a changed area: `empty`, or the octagon's eight
/// values in brackets.
pub open spec fn area_part(area: Option<IntOctagon>) -> Seq<char> {
    match area {
        None => "empty"@,
        Some(o) => seq!['('] + octagon_values(o) + seq![')'],
    }
}

/// The parts of the layers `areas`, comma separated.
pub open spec fn area_parts(areas: Seq<Option<IntOctagon>>) -> Seq<char>
    decreases areas.len(),
{
    if areas.len() == 0 {
        Seq::empty()
    } else if areas.len() == 1 {
        area_part(areas[0])
    } else {
        area_parts(areas.drop_last()) + seq![','] + area_part(areas.last())
    }
}

fn push_area_part(out: &mut String, area: Option<IntOctagon>)
    ensures
        final(out)@ == old(out)@ + area_part(area),
{
    match area {
        None => push_str(out, "empty"),
        Some(o) => {
            push_char(out, '(');
            push_octagon_values(out, &o);
            push_char(out, ')');
            assert(final(out)@ =~= old(out)@ + area_part(area));
        },
    }
}

/// The changed-area line: `changedArea <tag>=null` without a changed area,
/// else `changedArea <tag>=[...]` with every layer's part, an empty layer as
/// `empty`.
pub open spec fn changed_area_text(tag: Seq<char>, areas: Option<Seq<Option<IntOctagon>>>) -> Seq<
    char,
> {
    "changedArea "@ + tag + match areas {
        None => "=null"@,
        Some(a) => "=["@ + area_parts(a) + seq![']'],
    }
}

/// `dump_changed_area(board, tag)` on the board's changed area, one entry
/// per layer (`None` for an empty one): see [`changed_area_text`].
pub fn changed_area_line(tag: &str, areas: Option<&[Option<IntOctagon>]>) -> (out: String)
    ensures
        out@ == changed_area_text(
            tag@,
            match areas {
                None => None,
                Some(a) => Some(a@),
            },
        ),
{
    let mut out = String::new();
    push_str(&mut out, "changedArea ");
    push_str(&mut out, tag);
    match areas {
        None => {
            push_str(&mut out, "=null");
        },
        Some(a) => {
            push_str(&mut out, "=[");
            let ghost head = out@;
            let mut i: usize = 0;
            while i < a.len()
                invariant
                    i <= a@.len(),
                    out@ == head + area_parts(a@.take(i as int)),
                decreases a.len() - i,
            {
                assert(a@.take(i + 1).drop_last() =~= a@.take(i as int));
                let ghost before = out@;
                if i > 0 {
                    push_char(&mut out, ',');
                }
                push_area_part(&mut out, a[i]);
                proof {
                    if i == 0 {
                        assert(a@.take(1)[0] == a@[0]);
                        assert(out@ =~= head + area_parts(a@.take(1)));
                    } else {
                        assert(out@ =~= head + area_parts(a@.take(i + 1)));
                    }
                }
                i = i + 1;
            }
            assert(a@.take(a@.len() as int) =~= a@);
            push_char(&mut out, ']');
        },
    }
    out
}

} // verus!
