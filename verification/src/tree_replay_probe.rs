//! The replayed shape tree: the random script of inserts, re-keys, removals
//! and queries it is driven by, and its rendering of node shapes.
use vstd::prelude::*;
use crate::geometry::{IntBox, RegularTileShape};
use crate::xorshift::{xorshift, XorShift64};
use crate::text::{decimal, push_digits, push_int, push_str};
use crate::tree_probe::{obj_str, ShapeNode};
use crate::render::{box_ordinates, octagon_values, push_box_ordinates, push_octagon_values};
use crate::text::push_char;

verus! {

/// How the replayed tree prints a node's shape: `B(...)` for a box, `O(...)`
/// with its eight values for an octagon.
pub open spec fn regular_shape_text(s: RegularTileShape) -> Seq<char> {
    match s {
        RegularTileShape::Box(b) => seq!['B', '('] + box_ordinates(b, seq![','], seq![',']) + seq![
            ')',
        ],
        RegularTileShape::Octagon(o) => seq!['O', '('] + octagon_values(o) + seq![')'],
    }
}

/// `bounds_str(s)` of the replayed tree: see [`regular_shape_text`].
pub fn bounds_str(s: &RegularTileShape) -> (out: String)
    ensures
        out@ == regular_shape_text(*s),
{
    let mut out = String::new();
    match s {
        RegularTileShape::Box(b) => {
            push_char(&mut out, 'B');
            push_char(&mut out, '(');
            proof {
                reveal_strlit(",");
            }
            push_box_ordinates(&mut out, b, ",", ",");
        },
        RegularTileShape::Octagon(o) => {
            push_char(&mut out, 'O');
            push_char(&mut out, '(');
            push_octagon_values(&mut out, o);
        },
    }
    push_char(&mut out, ')');
    assert(out@ =~= regular_shape_text(*s));
    out
}

/// A box drawn by four draws after `s`: a corner `x`, `y` in `-500..1500`,
/// then a width and a height in `1..=size`. Answers the box and the state
/// after the last draw.
pub open spec fn drawn_box(s: u64, size: u64) -> (IntBox, u64) {
    let s1 = xorshift(s);
    let s2 = xorshift(s1);
    let s3 = xorshift(s2);
    let s4 = xorshift(s3);
    let x = (s1 % 2000) as int - 500;
    let y = (s2 % 2000) as int - 500;
    let w = 1 + (s3 % size) as int;
    let h = 1 + (s4 % size) as int;
    (IntBox::from_coords_spec(x as i32, y as i32, (x + w) as i32, (y + h) as i32), s4)
}

/// `count` boxes of side up to 150 drawn one after another from `s`, and the
/// state after them.
pub open spec fn drawn_boxes(s: u64, count: nat) -> (Seq<IntBox>, u64)
    decreases count,
{
    if count == 0 {
        (Seq::empty(), s)
    } else {
        let (b, t) = drawn_box(s, 150);
        let (rest, u) = drawn_boxes(t, (count - 1) as nat);
        (seq![b] + rest, u)
    }
}

/// The leaves a removal of `batch` more slots picks from `s` while `live`
/// leaves are left: each slot draws a hole with one chance in five; a slot
/// that is no hole, while a leaf is left, draws the index of the leaf it
/// takes out of those left.
pub open spec fn drawn_picks(s: u64, batch: nat, live: nat) -> (Seq<Option<usize>>, u64)
    decreases batch,
{
    if batch == 0 {
        (Seq::empty(), s)
    } else {
        let s1 = xorshift(s);
        if s1 % 5 == 0 || live == 0 {
            let (rest, t) = drawn_picks(s1, (batch - 1) as nat, live);
            (seq![None] + rest, t)
        } else {
            let s2 = xorshift(s1);
            let (rest, t) = drawn_picks(s2, (batch - 1) as nat, (live - 1) as nat);
            (seq![Some((s2 % (live as u64)) as usize)] + rest, t)
        }
    }
}

/// Whether the removal picks `picks` only name live leaves, starting with
/// `live` of them: each index is below the count still live when it is
/// taken out.
pub open spec fn picks_live(picks: Seq<Option<usize>>, live: nat) -> bool
    decreases picks.len(),
{
    if picks.len() == 0 {
        true
    } else {
        match picks[0] {
            None => picks_live(picks.drop_first(), live),
            Some(i) => i < live && picks_live(picks.drop_first(), (live - 1) as nat),
        }
    }
}

/// A removal only ever takes out a leaf that is live at the time: every
/// index it draws is below the count of leaves left.
pub proof fn lemma_picks_live(s: u64, batch: nat, live: nat)
    requires
        live <= u64::MAX,
    ensures
        picks_live(drawn_picks(s, batch, live).0, live),
    decreases batch,
{
    if batch > 0 {
        let s1 = xorshift(s);
        let picks = drawn_picks(s, batch, live).0;
        if s1 % 5 == 0 || live == 0 {
            lemma_picks_live(s1, (batch - 1) as nat, live);
            assert(picks.drop_first() =~= drawn_picks(s1, (batch - 1) as nat, live).0);
        } else {
            let s2 = xorshift(s1);
            lemma_picks_live(s2, (batch - 1) as nat, (live - 1) as nat);
            assert(picks.drop_first() =~= drawn_picks(s2, (batch - 1) as nat, (live - 1) as nat).0);
            assert((s2 % (live as u64)) < live);
        }
    }
}

/// One step of the replay script.
pub enum TreeStep {
    /// Insert a new object with these shapes.
    Insert(Vec<IntBox>),
    /// Give the live leaf at `index` a new owner and the shape index
    /// `new_index`.
    Rekey { index: usize, new_index: usize },
    /// Remove these live leaves, by their index among those left at the time;
    /// `None` is a hole in the batch.
    Remove(Vec<Option<usize>>),
}

fn draw_box(rng: &mut XorShift64, size: u64) -> (b: IntBox)
    requires
        1 <= size <= 600,
    ensures
        (b, final(rng).state) == drawn_box(old(rng).state, size),
{
    let x = rng.rnd_wide(2000) - 500;
    let y = rng.rnd_wide(2000) - 500;
    let w = 1 + rng.rnd_wide(size);
    let h = 1 + rng.rnd_wide(size);
    IntBox::from_coords(x as i32, y as i32, (x + w) as i32, (y + h) as i32)
}

/// The next step of the script from a stream, with `live` leaves in the tree
/// and inserts taking the rolls below `insert_pct`: a roll below 100 picks an
/// insert (always, with no leaf live), a re-key on the next twelve, a removal
/// above.
pub fn plan_step(rng: &mut XorShift64, live: usize, insert_pct: i64) -> (step: TreeStep)
    requires
        live <= u32::MAX,
    ensures
        ({
            let s1 = xorshift(old(rng).state);
            let roll = (s1 % 100) as int;
            if live == 0 || roll < insert_pct {
                let s2 = xorshift(s1);
                let (shapes, s3) = drawn_boxes(s2, (1 + s2 % 3) as nat);
                step matches TreeStep::Insert(v) && v@ == shapes && final(rng).state == s3
            } else if roll < insert_pct + 12 {
                let s2 = xorshift(s1);
                let s3 = xorshift(s2);
                step matches TreeStep::Rekey { index, new_index } && index == (s2 % (live as u64))
                    as usize && new_index == (s3 % 4) as usize && final(rng).state == s3
            } else {
                let s2 = xorshift(s1);
                let (picks, s3) = drawn_picks(s2, (1 + s2 % 4) as nat, live as nat);
                step matches TreeStep::Remove(v) && v@ == picks && final(rng).state == s3
            }
        }),
{
    let roll = rng.rnd_wide(100);
    if live == 0 || roll < insert_pct {
        let count = 1 + rng.rnd_wide(3);
        let ghost s2 = rng.state;
        let mut shapes: Vec<IntBox> = Vec::new();
        let mut k: i64 = 0;
        while k < count
            invariant
                0 <= k <= count <= 3,
                count == 1 + s2 % 3,
                shapes@ + drawn_boxes(rng.state, (count - k) as nat).0 == drawn_boxes(
                    s2,
                    count as nat,
                ).0,
                drawn_boxes(rng.state, (count - k) as nat).1 == drawn_boxes(s2, count as nat).1,
            decreases count - k,
        {
            let ghost before = rng.state;
            let b = draw_box(rng, 150);
            assert(drawn_boxes(before, (count - k) as nat).0 =~= seq![b] + drawn_boxes(
                rng.state,
                (count - k - 1) as nat,
            ).0);
            shapes.push(b);
            assert(shapes@ + drawn_boxes(rng.state, (count - k - 1) as nat).0 =~= drawn_boxes(
                s2,
                count as nat,
            ).0);
            k = k + 1;
        }
        assert(shapes@ =~= shapes@ + drawn_boxes(rng.state, 0).0);
        TreeStep::Insert(shapes)
    } else if roll < insert_pct + 12 {
        let index = rng.rnd_wide(live as u64) as usize;
        let new_index = rng.rnd_wide(4) as usize;
        TreeStep::Rekey { index, new_index }
    } else {
        let batch = 1 + rng.rnd_wide(4);
        let ghost s2 = rng.state;
        let mut left: usize = live;
        let mut picks: Vec<Option<usize>> = Vec::new();
        let mut k: i64 = 0;
        while k < batch
            invariant
                0 <= k <= batch <= 4,
                batch == 1 + s2 % 4,
                left <= live <= u32::MAX,
                picks@ + drawn_picks(rng.state, (batch - k) as nat, left as nat).0 == drawn_picks(
                    s2,
                    batch as nat,
                    live as nat,
                ).0,
                drawn_picks(rng.state, (batch - k) as nat, left as nat).1 == drawn_picks(
                    s2,
                    batch as nat,
                    live as nat,
                ).1,
            decreases batch - k,
        {
            let ghost before = rng.state;
            let hole = rng.rnd_wide(5) == 0;
            if hole || left == 0 {
                picks.push(None);
                assert(picks@ + drawn_picks(rng.state, (batch - k - 1) as nat, left as nat).0
                    =~= drawn_picks(s2, batch as nat, live as nat).0);
            } else {
                let idx = rng.rnd_wide(left as u64) as usize;
                picks.push(Some(idx));
                left = left - 1;
                assert(picks@ + drawn_picks(rng.state, (batch - k - 1) as nat, left as nat).0
                    =~= drawn_picks(s2, batch as nat, live as nat).0);
            }
            k = k + 1;
        }
        assert(picks@ =~= picks@ + drawn_picks(rng.state, 0, left as nat).0);
        TreeStep::Remove(picks)
    }
}

/// The next query box of the script: see [`drawn_box`], with sides up to 600.
pub fn query_box(rng: &mut XorShift64) -> (b: IntBox)
    ensures
        (b, final(rng).state) == drawn_box(old(rng).state, 600),
{
    draw_box(rng, 600)
}

/// Every leaf under `node` holds an item.
pub open spec fn item_leaves(node: ShapeNode) -> bool
    decreases node,
{
    match node {
        ShapeNode::Leaf { object, .. } => object is Item,
        ShapeNode::Inner { first, second, .. } => item_leaves(*first) && item_leaves(*second),
    }
}

/// The replayed tree's dump of `node` under `prefix`: a leaf as
/// `L #id/index <shape>`, an inner node as `I <shape>` followed by its two
/// children indented by one more space, each on a line of its own.
pub open spec fn replay_dump_text(node: ShapeNode, prefix: Seq<char>) -> Seq<char>
    decreases node,
{
    match node {
        ShapeNode::Leaf { object, shape_index, bounds } => prefix + "L #"@ + decimal(
            object->Item_0 as int,
        ) + seq!['/'] + decimal(shape_index as int) + seq![' '] + regular_shape_text(bounds)
            + seq!['\n'],
        ShapeNode::Inner { bounds, first, second } => prefix + "I "@ + regular_shape_text(bounds)
            + seq!['\n'] + replay_dump_text(*first, prefix + seq![' ']) + replay_dump_text(
            *second,
            prefix + seq![' '],
        ),
    }
}

/// `dump(tree, node, prefix, out)` of the replayed tree: appends
/// [`replay_dump_text`] to `out`.
pub fn dump(node: &ShapeNode, prefix: &str, out: &mut String)
    requires
        item_leaves(*node),
    ensures
        final(out)@ == old(out)@ + replay_dump_text(*node, prefix@),
    decreases node,
{
    let ghost start = out@;
    match node {
        ShapeNode::Leaf { object, shape_index, bounds } => {
            push_str(out, prefix);
            push_str(out, "L ");
            let id = obj_str(object);
            push_str(out, id.as_str());
            push_char(out, '/');
            push_digits(out, *shape_index as u64);
            push_char(out, ' ');
            let shape = bounds_str(bounds);
            push_str(out, shape.as_str());
            push_char(out, '\n');
            proof {
                reveal_strlit("L ");
                reveal_strlit("L #");
            }
            assert(out@ =~= start + replay_dump_text(*node, prefix@));
        },
        ShapeNode::Inner { bounds, first, second } => {
            push_str(out, prefix);
            push_str(out, "I ");
            let shape = bounds_str(bounds);
            push_str(out, shape.as_str());
            push_char(out, '\n');
            let mut deeper = String::new();
            push_str(&mut deeper, prefix);
            push_char(&mut deeper, ' ');
            assert(deeper@ =~= prefix@ + seq![' ']);
            dump(first, deeper.as_str(), out);
            dump(second, deeper.as_str(), out);
            assert(out@ =~= start + replay_dump_text(*node, prefix@));
        },
    }
}

/// What the replay's `print_tree` prints: `== <label> n=<count>
/// rootNull=<true|false>`, then the root's dump where there is one.
pub open spec fn replay_listing_text(label: Seq<char>, leaf_count: int, root: Option<ShapeNode>) -> Seq<char> {
    "== "@ + label + " n="@ + decimal(leaf_count) + " rootNull="@ + match root {
        None => "true\n"@,
        Some(node) => "false\n"@ + replay_dump_text(node, Seq::empty()),
    }
}

/// `print_tree(tree, label)` of the replayed tree: see [`replay_listing_text`].
pub fn replay_listing(label: &str, leaf_count: i64, root: Option<&ShapeNode>) -> (out: String)
    requires
        root matches Some(node) ==> item_leaves(*node),
    ensures
        out@ == replay_listing_text(label@, leaf_count as int, match root {
            None => None,
            Some(node) => Some(*node),
        }),
{
    let mut out = String::new();
    push_str(&mut out, "== ");
    push_str(&mut out, label);
    push_str(&mut out, " n=");
    push_int(&mut out, leaf_count);
    match root {
        None => push_str(&mut out, " rootNull=true\n"),
        Some(node) => {
            push_str(&mut out, " rootNull=false\n");
            proof {
                reveal_strlit("");
            }
            dump(node, "", &mut out);
        },
    }
    proof {
        reveal_strlit(" rootNull=true\n");
        reveal_strlit(" rootNull=false\n");
        reveal_strlit(" rootNull=");
        reveal_strlit("true\n");
        reveal_strlit("false\n");
    }
    assert(out@ =~= replay_listing_text(label@, leaf_count as int, match root {
        None => None,
        Some(node) => Some(*node),
    }));
    out
}

} // verus!
