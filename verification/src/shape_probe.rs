//! The shape probes' renderings: a guarded boolean answer, boxes, point
//! lists, and the length-prefixed arrays of the segment probe.
use vstd::prelude::*;
use crate::geometry::{IntBox, IntPoint, Point};
use crate::render::{box_ordinates, paren_point, push_box_ordinates, push_paren_point};
use crate::text::{chars_of, decimal, find, find_first, push_char, push_digits, push_int, push_str};

verus! {

/// `fmt(r)`: `true`/`false` for an answer, the exception text for a failure.
pub fn fmt(r: Result<bool, String>) -> (out: String)
    ensures
        r matches Ok(v) ==> (v ==> out@ == "true"@) && (!v ==> out@ == "false"@),
        r matches Err(e) ==> out@ == e@,
{
    match r {
        Ok(v) => {
            let mut out = String::new();
            if v {
                push_str(&mut out, "true");
            } else {
                push_str(&mut out, "false");
            }
            assert(out@ =~= if v { "true"@ } else { "false"@ });
            out
        },
        Err(e) => e,
    }
}

/// The panic messages of the shape code that stand for a Java
/// `NullPointerException`.
pub open spec fn null_pointer_messages() -> Seq<Seq<char>> {
    seq![
        "PolygonShape.splitToConvex failed"@,
        "PolylineArea.splitToConvex failed"@,
        "TileShape.cutout returned null"@,
        "TileShape.nearestPointApprox returned null"@,
        "no nearest point on a shape without border lines"@,
        "no nearest border point on a shape without border lines"@,
    ]
}

/// Whether `msg` contains one of [`null_pointer_messages`].
pub open spec fn stands_for_null_pointer(msg: Seq<char>) -> bool {
    exists|k: int|
        0 <= k < null_pointer_messages().len() && #[trigger] find_first(
            msg,
            null_pointer_messages()[k],
        ) is Some
}

/// What a panic with message `msg` is printed as: `EXC:NullPointerException`
/// where the message stands for one, `EXC:` and the message otherwise.
pub open spec fn exception_line(msg: Seq<char>) -> Seq<char> {
    if stands_for_null_pointer(msg) {
        "EXC:NullPointerException"@
    } else {
        "EXC:"@ + msg
    }
}

/// `exception_text(msg)`: see [`exception_line`].
pub fn exception_text(msg: &str) -> (out: String)
    ensures
        out@ == exception_line(msg@),
{
    let text = chars_of(msg);
    let markers: [&str; 6] = [
        "PolygonShape.splitToConvex failed",
        "PolylineArea.splitToConvex failed",
        "TileShape.cutout returned null",
        "TileShape.nearestPointApprox returned null",
        "no nearest point on a shape without border lines",
        "no nearest border point on a shape without border lines",
    ];
    assert(markers@.map_values(|m: &str| m@) =~= null_pointer_messages());
    let mut k: usize = 0;
    while k < 6
        invariant
            k <= 6,
            text@ == msg@,
            markers@.map_values(|m: &str| m@) == null_pointer_messages(),
            forall|j: int| 0 <= j < k ==> find_first(msg@, #[trigger] null_pointer_messages()[j]) is None,
        decreases 6 - k,
    {
        let pat = chars_of(markers[k]);
        assert(pat@ == null_pointer_messages()[k as int]);
        if find(&text, &pat).is_some() {
            let mut out = String::new();
            push_str(&mut out, "EXC:NullPointerException");
            return out;
        }
        k = k + 1;
    }
    assert(!stands_for_null_pointer(msg@));
    let mut out = String::new();
    push_str(&mut out, "EXC:");
    push_str(&mut out, msg);
    out
}

/// `B(llx,lly,urx,ury)`.
pub open spec fn bx_text(b: IntBox) -> Seq<char> {
    seq!['B', '('] + box_ordinates(b, seq![','], seq![',']) + seq![')']
}

/// `bx(x)`: see [`bx_text`].
pub fn bx(x: &IntBox) -> (out: String)
    ensures
        out@ == bx_text(*x),
{
    let mut out = String::new();
    push_char(&mut out, 'B');
    push_char(&mut out, '(');
    proof {
        reveal_strlit(",");
    }
    push_box_ordinates(&mut out, x, ",", ",");
    push_char(&mut out, ')');
    assert(out@ =~= bx_text(*x));
    out
}

/// Whether every point of `pts` is integral.
pub open spec fn all_integral(pts: Seq<Point>) -> bool {
    forall|k: int| 0 <= k < pts.len() ==> #[trigger] pts[k] is Int
}

/// Each integral point as `(x,y),`.
pub open spec fn points_body(pts: Seq<Point>) -> Seq<char>
    decreases pts.len(),
{
    if pts.len() == 0 {
        Seq::<char>::empty()
    } else {
        points_body(pts.drop_last()) + paren_point(pts.last()->Int_0) + seq![',']
    }
}

/// `pts_str(pts)`: `[`, every point as `(x,y),`, `]`.
pub fn pts_str(pts: &[Point]) -> (out: String)
    requires
        all_integral(pts@),
    ensures
        out@ == seq!['['] + points_body(pts@) + seq![']'],
{
    let mut out = String::new();
    push_char(&mut out, '[');
    let mut i: usize = 0;
    while i < pts.len()
        invariant
            i <= pts@.len(),
            all_integral(pts@),
            out@ == seq!['['] + points_body(pts@.take(i as int)),
        decreases pts.len() - i,
    {
        assert(pts@.take(i + 1).drop_last() =~= pts@.take(i as int));
        match pts[i] {
            Point::Int(p) => {
                push_paren_point(&mut out, p);
            },
            Point::Rational => {
                assert(pts@[i as int] is Int);
            },
        }
        push_char(&mut out, ',');
        i = i + 1;
        assert(out@ =~= seq!['['] + points_body(pts@.take(i as int)));
    }
    assert(pts@.take(pts.len() as int) =~= pts@);
    push_char(&mut out, ']');
    out
}

/// Each point as `x/y;`.
pub open spec fn slash_points(a: Seq<IntPoint>) -> Seq<char>
    decreases a.len(),
{
    if a.len() == 0 {
        Seq::<char>::empty()
    } else {
        slash_points(a.drop_last()) + decimal(a.last().x as int) + seq!['/'] + decimal(
            a.last().y as int,
        ) + seq![';']
    }
}

/// `ip_arr(a)`: `[`, the length, `:`, every point as `x/y;`, `]`.
pub fn ip_arr(a: &[IntPoint]) -> (out: String)
    ensures
        out@ == seq!['['] + decimal(a@.len() as int) + seq![':'] + slash_points(a@) + seq![']'],
{
    let mut out = String::new();
    push_char(&mut out, '[');
    push_digits(&mut out, a.len() as u64);
    push_char(&mut out, ':');
    let ghost head = out@;
    let mut i: usize = 0;
    while i < a.len()
        invariant
            i <= a@.len(),
            out@ == head + slash_points(a@.take(i as int)),
        decreases a.len() - i,
    {
        assert(a@.take(i + 1).drop_last() =~= a@.take(i as int));
        push_int(&mut out, a[i].x as i64);
        push_char(&mut out, '/');
        push_int(&mut out, a[i].y as i64);
        push_char(&mut out, ';');
        i = i + 1;
        assert(out@ =~= head + slash_points(a@.take(i as int)));
    }
    assert(a@.take(a.len() as int) =~= a@);
    push_char(&mut out, ']');
    assert(out@ =~= seq!['['] + decimal(a@.len() as int) + seq![':'] + slash_points(a@) + seq![
        ']',
    ]);
    out
}

/// Each index followed by `;`.
pub open spec fn semicolon_indices(a: Seq<usize>) -> Seq<char>
    decreases a.len(),
{
    if a.len() == 0 {
        Seq::<char>::empty()
    } else {
        semicolon_indices(a.drop_last()) + decimal(a.last() as int) + seq![';']
    }
}

/// `i_arr(a)`: `[`, the length, `:`, every index followed by `;`, `]`.
pub fn i_arr(a: &[usize]) -> (out: String)
    ensures
        out@ == seq!['['] + decimal(a@.len() as int) + seq![':'] + semicolon_indices(a@) + seq![
            ']',
        ],
{
    let mut out = String::new();
    push_char(&mut out, '[');
    push_digits(&mut out, a.len() as u64);
    push_char(&mut out, ':');
    let ghost head = out@;
    let mut i: usize = 0;
    while i < a.len()
        invariant
            i <= a@.len(),
            out@ == head + semicolon_indices(a@.take(i as int)),
        decreases a.len() - i,
    {
        assert(a@.take(i + 1).drop_last() =~= a@.take(i as int));
        push_digits(&mut out, a[i] as u64);
        push_char(&mut out, ';');
        i = i + 1;
        assert(out@ =~= head + semicolon_indices(a@.take(i as int)));
    }
    assert(a@.take(a.len() as int) =~= a@);
    push_char(&mut out, ']');
    assert(out@ =~= seq!['['] + decimal(a@.len() as int) + seq![':'] + semicolon_indices(a@)
        + seq![']']);
    out
}

} // verus!
