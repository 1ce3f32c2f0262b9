//! Shared renderings of coordinates: the pieces the drivers' formats are
//! made of.
use vstd::prelude::*;
use crate::geometry::{IntBox, IntOctagon, IntPoint};
use crate::text::{decimal, push_char, push_int, push_str};

verus! {

/// `(x,y)`.
pub open spec fn paren_point(p: IntPoint) -> Seq<char> {
    seq!['('] + decimal(p.x as int) + seq![','] + decimal(p.y as int) + seq![')']
}

/// Appends `(x,y)`.
pub fn push_paren_point(out: &mut String, p: IntPoint)
    ensures
        final(out)@ == old(out)@ + paren_point(p),
{
    push_char(out, '(');
    push_int(out, p.x as i64);
    push_char(out, ',');
    push_int(out, p.y as i64);
    push_char(out, ')');
    assert(final(out)@ =~= old(out)@ + paren_point(p));
}

/// The four ordinates of a box, `a`, `b`, `c`, `d`, with `sep1` after the
/// first, `sep2` after the second and `sep1` after the third.
pub open spec fn box_ordinates(b: IntBox, sep1: Seq<char>, sep2: Seq<char>) -> Seq<char> {
    decimal(b.ll.x as int) + sep1 + decimal(b.ll.y as int) + sep2 + decimal(b.ur.x as int) + sep1
        + decimal(b.ur.y as int)
}

/// Appends the ordinates of a box as [`box_ordinates`].
pub fn push_box_ordinates(out: &mut String, b: &IntBox, sep1: &str, sep2: &str)
    ensures
        final(out)@ == old(out)@ + box_ordinates(*b, sep1@, sep2@),
{
    push_int(out, b.ll.x as i64);
    push_str(out, sep1);
    push_int(out, b.ll.y as i64);
    push_str(out, sep2);
    push_int(out, b.ur.x as i64);
    push_str(out, sep1);
    push_int(out, b.ur.y as i64);
    assert(final(out)@ =~= old(out)@ + box_ordinates(*b, sep1@, sep2@));
}

/// The eight values of an octagon, comma separated, in the order left,
/// bottom, right, top, upper-left, lower-right, lower-left, upper-right.
pub open spec fn octagon_values(o: IntOctagon) -> Seq<char> {
    decimal(o.left_x as int) + seq![','] + decimal(o.bottom_y as int) + seq![','] + decimal(
        o.right_x as int,
    ) + seq![','] + decimal(o.top_y as int) + seq![','] + decimal(o.upper_left_diagonal_x as int)
        + seq![','] + decimal(o.lower_right_diagonal_x as int) + seq![','] + decimal(
        o.lower_left_diagonal_x as int,
    ) + seq![','] + decimal(o.upper_right_diagonal_x as int)
}

/// Appends the values of an octagon as [`octagon_values`].
pub fn push_octagon_values(out: &mut String, o: &IntOctagon)
    ensures
        final(out)@ == old(out)@ + octagon_values(*o),
{
    push_int(out, o.left_x as i64);
    push_char(out, ',');
    push_int(out, o.bottom_y as i64);
    push_char(out, ',');
    push_int(out, o.right_x as i64);
    push_char(out, ',');
    push_int(out, o.top_y as i64);
    push_char(out, ',');
    push_int(out, o.upper_left_diagonal_x as i64);
    push_char(out, ',');
    push_int(out, o.lower_right_diagonal_x as i64);
    push_char(out, ',');
    push_int(out, o.lower_left_diagonal_x as i64);
    push_char(out, ',');
    push_int(out, o.upper_right_diagonal_x as i64);
    assert(final(out)@ =~= old(out)@ + octagon_values(*o));
}

} // verus!
