//! The search-tree dump's renderings: boxes, regular shapes, net lists and
//! the entries a query answers.
use vstd::prelude::*;
use crate::board_probe::{i32_values, net_array};
use crate::geometry::{IntBox, RegularTileShape};
use crate::kinds::{TreeEntry, TreeObject};
use crate::render::{box_ordinates, octagon_values, push_box_ordinates, push_octagon_values};
use crate::text::{bracketed, decimal, push_char, push_digits, push_str};

verus! {

/// `[llx,lly..urx,ury]`.
pub open spec fn b_text(x: IntBox) -> Seq<char> {
    seq!['['] + box_ordinates(x, seq![','], seq!['.', '.']) + seq![']']
}

fn push_b(out: &mut String, x: &IntBox)
    ensures
        final(out)@ == old(out)@ + b_text(*x),
{
    proof {
        reveal_strlit(",");
        reveal_strlit("..");
    }
    push_char(out, '[');
    push_box_ordinates(out, x, ",", "..");
    push_char(out, ']');
    assert(final(out)@ =~= old(out)@ + b_text(*x));
}

/// `b(x)`: see [`b_text`].
pub fn b(x: &IntBox) -> (out: String)
    ensures
        out@ == b_text(*x),
{
    let mut out = String::new();
    push_b(&mut out, x);
    assert(out@ =~= b_text(*x));
    out
}

/// `Box[...]` for a box, `Oct[...]` with its eight values for an octagon.
pub open spec fn shape_text(s: RegularTileShape) -> Seq<char> {
    match s {
        RegularTileShape::Box(x) => seq!['B', 'o', 'x'] + b_text(x),
        RegularTileShape::Octagon(o) => seq!['O', 'c', 't', '['] + octagon_values(o) + seq![']'],
    }
}

/// `shp(s)` for a box or an octagon: see [`shape_text`].
pub fn shp(s: &RegularTileShape) -> (out: String)
    ensures
        out@ == shape_text(*s),
{
    let mut out = String::new();
    match s {
        RegularTileShape::Box(x) => {
            proof {
                reveal_strlit("Box");
            }
            push_str(&mut out, "Box");
            push_b(&mut out, x);
        },
        RegularTileShape::Octagon(o) => {
            proof {
                reveal_strlit("Oct[");
            }
            push_str(&mut out, "Oct[");
            push_octagon_values(&mut out, o);
            push_char(&mut out, ']');
        },
    }
    assert(out@ =~= shape_text(*s));
    out
}

/// `nets(net_nos)`: the net numbers as `[a, b, c]`.
pub fn nets(net_nos: &[i32]) -> (out: String)
    ensures
        out@ == bracketed(i32_values(net_nos@), seq![',', ' ']),
{
    net_array(net_nos)
}

/// ` id/shape` for every item entry, in order; room entries are skipped.
pub open spec fn entry_pairs(entries: Seq<TreeEntry>) -> Seq<char>
    decreases entries.len(),
{
    if entries.len() == 0 {
        Seq::<char>::empty()
    } else {
        let e = entries.last();
        entry_pairs(entries.drop_last()) + match e.object {
            TreeObject::Item(id) => seq![' '] + decimal(id as int) + seq!['/'] + decimal(
                e.shape_index as int,
            ),
            TreeObject::Room(_) => Seq::<char>::empty(),
        }
    }
}

/// `pair_text(entries)`: see [`entry_pairs`].
pub fn pair_text(entries: &[TreeEntry]) -> (out: String)
    ensures
        out@ == entry_pairs(entries@),
{
    let mut out = String::new();
    let mut i: usize = 0;
    while i < entries.len()
        invariant
            i <= entries@.len(),
            out@ == entry_pairs(entries@.take(i as int)),
        decreases entries.len() - i,
    {
        assert(entries@.take(i + 1).drop_last() =~= entries@.take(i as int));
        let e = entries[i];
        match e.object {
            TreeObject::Item(id) => {
                push_char(&mut out, ' ');
                push_digits(&mut out, id as u64);
                push_char(&mut out, '/');
                push_digits(&mut out, e.shape_index as u64);
            },
            TreeObject::Room(_) => {},
        }
        i = i + 1;
        assert(out@ =~= entry_pairs(entries@.take(i as int)));
    }
    assert(entries@.take(entries.len() as int) =~= entries@);
    out
}

} // verus!
