//! The shape-tree probes' renderings: tree objects, node bounds, and the
//! indented dump of a whole tree.
use vstd::prelude::*;
use crate::geometry::{IntBox, RegularTileShape};
use crate::cli_gate::{trim_end, trimmed_end};
use crate::kinds::{TreeEntry, TreeObject};
use crate::render::{box_ordinates, push_box_ordinates};
use crate::text::{decimal, digits, push_char, push_digits, push_str};
use crate::text::push_int;

verus! {

/// `obj(n)`: the tree object of item `n`.
pub fn obj(n: u32) -> (o: TreeObject)
    ensures
        o == TreeObject::Item(n),
{
    TreeObject::Item(n)
}

/// `obj_str(o)`: `#` and the item id.
pub fn obj_str(o: &TreeObject) -> (out: String)
    requires
        o is Item,
    ensures
        out@ == seq!['#'] + decimal(o->Item_0 as int),
{
    let mut out = String::new();
    push_char(&mut out, '#');
    match o {
        TreeObject::Item(n) => push_digits(&mut out, *n as u64),
        TreeObject::Room(_) => {},
    }
    assert(out@ =~= seq!['#'] + decimal(o->Item_0 as int));
    out
}

/// `tile(c)`: the box with lower-left `(c[0], c[1])` and upper-right `(c[2], c[3])`.
pub fn tile(c: [i32; 4]) -> (b: IntBox)
    ensures
        b == IntBox::from_coords_spec(c[0], c[1], c[2], c[3]),
{
    IntBox::from_coords(c[0], c[1], c[2], c[3])
}

/// `bounds_str(b)`: the bounding box as `(llx,lly,urx,ury)`.
pub fn bounds_str(b: &IntBox) -> (out: String)
    ensures
        out@ == seq!['('] + box_ordinates(*b, seq![','], seq![',']) + seq![')'],
{
    let mut out = String::new();
    push_char(&mut out, '(');
    proof {
        reveal_strlit(",");
    }
    push_box_ordinates(&mut out, b, ",", ",");
    push_char(&mut out, ')');
    assert(out@ =~= seq!['('] + box_ordinates(*b, seq![','], seq![',']) + seq![')']);
    out
}

/// A node of a shape tree as the probes read it: a leaf holds one shape of an
/// object, an inner node bounds its two children.
pub enum ShapeNode {
    Leaf { object: TreeObject, shape_index: u32, bounds: RegularTileShape },
    Inner { bounds: RegularTileShape, first: Box<ShapeNode>, second: Box<ShapeNode> },
}

/// Every leaf under `node` holds an item and every bound is a box, as in a
/// tree with orthogonal bounding directions.
pub open spec fn orthogonal_items(node: ShapeNode) -> bool
    decreases node,
{
    match node {
        ShapeNode::Leaf { object, bounds, .. } => object is Item && bounds is Box,
        ShapeNode::Inner { bounds, first, second } => bounds is Box && orthogonal_items(*first)
            && orthogonal_items(*second),
    }
}

/// `(llx,lly,urx,ury)` of a box bound.
pub open spec fn box_bound_text(s: RegularTileShape) -> Seq<char> {
    seq!['('] + box_ordinates(s->Box_0, seq![','], seq![',']) + seq![')']
}

/// The dump of `node` under `prefix`: a leaf as `Leaf #id/index (bounds)`, an
/// inner node as `Inner (bounds)` followed by its two children indented by
/// two more spaces, each on a line of its own.
pub open spec fn dump_text(node: ShapeNode, prefix: Seq<char>) -> Seq<char>
    decreases node,
{
    match node {
        ShapeNode::Leaf { object, shape_index, bounds } => prefix + "Leaf #"@ + decimal(
            object->Item_0 as int,
        ) + seq!['/'] + decimal(shape_index as int) + seq![' '] + box_bound_text(bounds) + seq![
            '\n',
        ],
        ShapeNode::Inner { bounds, first, second } => prefix + "Inner "@ + box_bound_text(bounds)
            + seq!['\n'] + dump_text(*first, prefix + seq![' ', ' ']) + dump_text(
            *second,
            prefix + seq![' ', ' '],
        ),
    }
}

fn push_box_bound(out: &mut String, s: &RegularTileShape)
    requires
        *s is Box,
    ensures
        final(out)@ == old(out)@ + box_bound_text(*s),
{
    if let RegularTileShape::Box(b) = s {
        let text = bounds_str(b);
        push_str(out, text.as_str());
    }
}

/// `dump(tree, node, prefix, out)`: appends [`dump_text`] to `out`.
pub fn dump(node: &ShapeNode, prefix: &str, out: &mut String)
    requires
        orthogonal_items(*node),
    ensures
        final(out)@ == old(out)@ + dump_text(*node, prefix@),
    decreases node,
{
    let ghost start = out@;
    match node {
        ShapeNode::Leaf { object, shape_index, bounds } => {
            push_str(out, prefix);
            push_str(out, "Leaf ");
            let id = obj_str(object);
            push_str(out, id.as_str());
            push_char(out, '/');
            push_digits(out, *shape_index as u64);
            push_char(out, ' ');
            push_box_bound(out, bounds);
            push_char(out, '\n');
            proof {
                reveal_strlit("Leaf ");
                reveal_strlit("Leaf #");
                assert(decimal(*shape_index as int) == digits(*shape_index as nat));
            }
            assert(out@ =~= start + dump_text(*node, prefix@));
        },
        ShapeNode::Inner { bounds, first, second } => {
            push_str(out, prefix);
            push_str(out, "Inner ");
            push_box_bound(out, bounds);
            push_char(out, '\n');
            let ghost head = out@;
            let mut deeper = String::new();
            push_str(&mut deeper, prefix);
            push_char(&mut deeper, ' ');
            push_char(&mut deeper, ' ');
            assert(deeper@ =~= prefix@ + seq![' ', ' ']);
            dump(first, deeper.as_str(), out);
            dump(second, deeper.as_str(), out);
            assert(out@ =~= start + dump_text(*node, prefix@));
        },
    }
}

/// What `print_tree` prints: `--- <label> leafCount=<n>`, then `(empty)` for
/// a tree without a root, else the root's dump.
pub open spec fn tree_listing_text(label: Seq<char>, leaf_count: int, root: Option<ShapeNode>) -> Seq<char> {
    "--- "@ + label + " leafCount="@ + decimal(leaf_count) + seq!['\n'] + match root {
        None => "(empty)\n"@,
        Some(node) => dump_text(node, Seq::empty()),
    }
}

/// `print_tree(tree, label)`: see [`tree_listing_text`].
pub fn tree_listing(label: &str, leaf_count: i64, root: Option<&ShapeNode>) -> (out: String)
    requires
        root matches Some(node) ==> orthogonal_items(*node),
    ensures
        out@ == tree_listing_text(label@, leaf_count as int, match root {
            None => None,
            Some(node) => Some(*node),
        }),
{
    let mut out = String::new();
    push_str(&mut out, "--- ");
    push_str(&mut out, label);
    push_str(&mut out, " leafCount=");
    push_int(&mut out, leaf_count);
    push_char(&mut out, '\n');
    let ghost head = out@;
    match root {
        None => push_str(&mut out, "(empty)\n"),
        Some(node) => {
            proof {
                reveal_strlit("");
            }
            dump(node, "", &mut out);
        },
    }
    assert(out@ =~= tree_listing_text(label@, leaf_count as int, match root {
        None => None,
        Some(node) => Some(*node),
    }));
    out
}

/// Every entry holds an item.
pub open spec fn item_entries(entries: Seq<TreeEntry>) -> bool {
    forall|k: int| 0 <= k < entries.len() ==> #[trigger] entries[k].object is Item
}

/// `#id/index ` for every entry, in order.
pub open spec fn spaced_entries(entries: Seq<TreeEntry>) -> Seq<char>
    decreases entries.len(),
{
    if entries.len() == 0 {
        Seq::empty()
    } else {
        let e = entries.last();
        spaced_entries(entries.drop_last()) + seq!['#'] + decimal(e.object->Item_0 as int)
            + seq!['/'] + decimal(e.shape_index as int) + seq![' ']
    }
}

/// `print_overlaps(tree, query, label)` on the overlapping `entries`:
/// `<label> -> ` and every entry as `#id/index `, with the trailing white
/// space cut.
pub fn overlaps_line(label: &str, entries: &[TreeEntry]) -> (out: String)
    requires
        item_entries(entries@),
    ensures
        out@ == trim_end(label@ + " -> "@ + spaced_entries(entries@)),
{
    let mut line = String::new();
    push_str(&mut line, label);
    push_str(&mut line, " -> ");
    let ghost head = line@;
    let mut i: usize = 0;
    while i < entries.len()
        invariant
            i <= entries@.len(),
            item_entries(entries@),
            line@ == head + spaced_entries(entries@.take(i as int)),
        decreases entries.len() - i,
    {
        assert(entries@.take(i + 1).drop_last() =~= entries@.take(i as int));
        let e = entries[i];
        assert(e.object is Item);
        let ghost before = line@;
        if let TreeObject::Item(id) = e.object {
            push_char(&mut line, '#');
            push_digits(&mut line, id as u64);
        }
        push_char(&mut line, '/');
        push_digits(&mut line, e.shape_index as u64);
        push_char(&mut line, ' ');
        i = i + 1;
        assert(line@ =~= head + spaced_entries(entries@.take(i as int)));
    }
    assert(entries@.take(entries.len() as int) =~= entries@);
    trimmed_end(line.as_str())
}

} // verus!
