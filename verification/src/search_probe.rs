//! The randomised search-tree probe: the script of random items it inserts,
//! the queries it asks, and its renderings of their answers.
use vstd::prelude::*;
use crate::geometry::{IntBox, IntPoint};
use crate::xorshift::{rand_coord, random_box, xorshift, XorShift64};
use crate::board_probe::{item_ids, objects, u32_values};
use crate::kinds::{TreeEntry, TreeObject};
use crate::text::{bracketed, decimal, join, push_char, push_digits};

verus! {

/// `object_ids(objects)`: the item ids of the set, space separated, in
/// brackets.
pub fn object_ids(set: &[TreeObject]) -> (out: String)
    requires
        forall|k: int| 0 <= k < set@.len() ==> #[trigger] set@[k] is Item,
    ensures
        out@ == bracketed(u32_values(item_ids(set@)), seq![' ']),
{
    objects(set)
}

/// `id/shape` of every item entry, in order; room entries are left out.
pub open spec fn item_pairs(entries: Seq<TreeEntry>) -> Seq<Seq<char>>
    decreases entries.len(),
{
    if entries.len() == 0 {
        Seq::<Seq<char>>::empty()
    } else {
        let e = entries.last();
        match e.object {
            TreeObject::Item(id) => item_pairs(entries.drop_last()).push(
                decimal(id as int) + seq!['/'] + decimal(e.shape_index as int),
            ),
            TreeObject::Room(_) => item_pairs(entries.drop_last()),
        }
    }
}

/// `pair_text(entries)`: the item pairs space separated, in brackets.
pub fn pair_text(entries: &[TreeEntry]) -> (out: String)
    ensures
        out@ == seq!['['] + join(item_pairs(entries@), seq![' ']) + seq![']'],
{
    let mut out = String::new();
    push_char(&mut out, '[');
    let mut i: usize = 0;
    let mut emitted: usize = 0;
    while i < entries.len()
        invariant
            i <= entries@.len(),
            emitted == item_pairs(entries@.take(i as int)).len(),
            emitted <= i,
            out@ == seq!['['] + join(item_pairs(entries@.take(i as int)), seq![' ']),
        decreases entries.len() - i,
    {
        assert(entries@.take(i + 1).drop_last() =~= entries@.take(i as int));
        let ghost before = item_pairs(entries@.take(i as int));
        let e = entries[i];
        match e.object {
            TreeObject::Item(id) => {
                if emitted > 0 {
                    push_char(&mut out, ' ');
                }
                push_digits(&mut out, id as u64);
                push_char(&mut out, '/');
                push_digits(&mut out, e.shape_index as u64);
                emitted = emitted + 1;
                proof {
                    let piece = decimal(id as int) + seq!['/'] + decimal(e.shape_index as int);
                    assert(before.push(piece).drop_last() =~= before);
                    if before.len() == 0 {
                        assert(join(before.push(piece), seq![' ']) == piece);
                    }
                }
            },
            TreeObject::Room(_) => {},
        }
        i = i + 1;
        assert(out@ =~= seq!['['] + join(item_pairs(entries@.take(i as int)), seq![' ']));
    }
    assert(entries@.take(entries.len() as int) =~= entries@);
    push_char(&mut out, ']');
    out
}

/// A coordinate of the probe's board drawn from the state `s`: in
/// `-12000..=12000`.
pub open spec fn board_coord(s: u64) -> i32 {
    ((s % 24001) as i32 - 12000) as i32
}

/// A draw below `bound` from the state `s`.
pub open spec fn below(s: u64, bound: u64) -> int {
    (s % bound) as int
}

/// One of the probe's random items, as its script draws it.
#[derive(Clone, Copy, PartialEq, Eq, Debug)]
pub enum RandomItem {
    /// A pin of a new component at `location`, turned by `quarter_turns`
    /// times 90 degrees, on the front side or the back.
    Pin {
        location: IntPoint,
        quarter_turns: i32,
        on_front: bool,
        pin_index: i32,
        net_no: i32,
        clearance_class: usize,
    },
    /// A through via.
    Via { center: IntPoint, net_no: i32, clearance_class: usize, attach: bool },
    /// A two-corner trace on `layer`.
    Trace {
        layer: usize,
        from: IntPoint,
        to: IntPoint,
        half_width: i32,
        net_no: i32,
        clearance_class: usize,
    },
}

/// The far end of a trace drawn after `s` (an `x`, then a `y`), drawn again
/// while it is `from`, allowing `fuel` draws again: the end and the state
/// after it.
pub open spec fn far_end(s: u64, from: IntPoint, fuel: nat) -> Option<(IntPoint, u64)>
    decreases fuel,
{
    let s1 = xorshift(s);
    let s2 = xorshift(s1);
    let p = IntPoint { x: board_coord(s1), y: board_coord(s2) };
    if p != from {
        Some((p, s2))
    } else if fuel == 0 {
        None
    } else {
        far_end(s2, from, (fuel - 1) as nat)
    }
}

/// Drawing the far end after `s` ends: some finite number of draws gives a
/// point other than `from`.
pub open spec fn far_end_found(s: u64, from: IntPoint) -> bool {
    exists|fuel: nat| far_end(s, from, fuel) is Some
}

/// The far end drawn after `s`, where drawing ends.
pub open spec fn far_end_of(s: u64, from: IntPoint) -> (IntPoint, u64) {
    far_end(s, from, choose|fuel: nat| far_end(s, from, fuel) is Some)->0
}

proof fn lemma_far_end_differs(s: u64, from: IntPoint, fuel: nat)
    ensures
        far_end(s, from, fuel) matches Some((p, _)) ==> p != from,
    decreases fuel,
{
    let s2 = xorshift(xorshift(s));
    if (IntPoint { x: board_coord(xorshift(s)), y: board_coord(s2) }) == from && fuel > 0 {
        lemma_far_end_differs(s2, from, (fuel - 1) as nat);
    }
}

/// The start of the trace an item roll of 70 or more draws after `s0`: the
/// layer draw comes first.
pub open spec fn trace_start(s0: u64) -> IntPoint {
    let s3 = xorshift(xorshift(xorshift(s0)));
    IntPoint { x: board_coord(s3), y: board_coord(xorshift(s3)) }
}

/// Drawing the next item after `s0` ends: a pin or a via always does, a
/// trace where its far end is found.
pub open spec fn item_drawn(s0: u64) -> bool {
    let s1 = xorshift(s0);
    below(s1, 100) >= 70 ==> far_end_found(xorshift(xorshift(xorshift(s1))), trace_start(s0))
}

/// The next item of the script after `s0` and the state after it: a roll
/// below 40 draws a pin, below 70 a via, a trace above; each then draws its
/// values in the order the fields are listed.
pub open spec fn drawn_item(s0: u64) -> (RandomItem, u64) {
    let s1 = xorshift(s0);
    let roll = below(s1, 100);
    let s2 = xorshift(s1);
    let s3 = xorshift(s2);
    let s4 = xorshift(s3);
    let s5 = xorshift(s4);
    let s6 = xorshift(s5);
    let s7 = xorshift(s6);
    let s8 = xorshift(s7);
    if roll < 40 {
        (
            RandomItem::Pin {
                location: IntPoint { x: board_coord(s2), y: board_coord(s3) },
                quarter_turns: below(s4, 4) as i32,
                on_front: below(s5, 2) == 0,
                pin_index: below(s6, 2) as i32,
                net_no: (1 + below(s7, 4)) as i32,
                clearance_class: (1 + below(s8, 2)) as usize,
            },
            s8,
        )
    } else if roll < 70 {
        (
            RandomItem::Via {
                center: IntPoint { x: board_coord(s2), y: board_coord(s3) },
                net_no: (1 + below(s4, 4)) as i32,
                clearance_class: (1 + below(s5, 2)) as usize,
                attach: below(s6, 2) == 0,
            },
            s6,
        )
    } else {
        let from = IntPoint { x: board_coord(s3), y: board_coord(s4) };
        let (to, t) = far_end_of(s4, from);
        let t1 = xorshift(t);
        let t2 = xorshift(t1);
        let t3 = xorshift(t2);
        (
            RandomItem::Trace {
                layer: below(s2, 2) as usize,
                from,
                to,
                half_width: (5 + below(t1, 30)) as i32,
                net_no: (1 + below(t2, 4)) as i32,
                clearance_class: (1 + below(t3, 2)) as usize,
            },
            t3,
        )
    }
}

fn draw_below(rng: &mut XorShift64, bound: u64) -> (r: i64)
    requires
        1 <= bound <= 100,
    ensures
        final(rng).state == xorshift(old(rng).state),
        r == below(final(rng).state, bound),
        0 <= r < bound,
{
    let r = rng.rnd_wide(bound);
    assert(final(rng).state % bound < bound);
    r
}

fn draw_coord(rng: &mut XorShift64) -> (r: i32)
    ensures
        final(rng).state == xorshift(old(rng).state),
        r == board_coord(final(rng).state),
{
    rand_coord(rng, 12000)
}

/// The far end of a trace from `from`, drawn until it differs.
fn draw_far_end(rng: &mut XorShift64, from: IntPoint) -> (to: IntPoint)
    requires
        far_end_found(old(rng).state, from),
    ensures
        (to, final(rng).state) == far_end_of(old(rng).state, from),
{
    let ghost s0 = rng.state;
    let ghost f0 = choose|fuel: nat| far_end(s0, from, fuel) is Some;
    let ghost target = far_end(s0, from, f0);
    let ghost mut fuel: nat = f0;
    let ghost mut b = s0;
    let mut x2 = draw_coord(rng);
    let mut y2 = draw_coord(rng);
    while x2 == from.x && y2 == from.y
        invariant
            target == far_end(s0, from, f0),
            target is Some,
            far_end(b, from, fuel) == target,
            rng.state == xorshift(xorshift(b)),
            x2 == board_coord(xorshift(b)),
            y2 == board_coord(rng.state),
        decreases fuel,
    {
        proof {
            b = rng.state;
            fuel = (fuel - 1) as nat;
        }
        x2 = draw_coord(rng);
        y2 = draw_coord(rng);
    }
    IntPoint { x: x2, y: y2 }
}

/// `next_item()`: the next random item of the script; see [`drawn_item`].
pub fn plan_item(rng: &mut XorShift64) -> (item: RandomItem)
    requires
        item_drawn(old(rng).state),
    ensures
        (item, final(rng).state) == drawn_item(old(rng).state),
{
    let roll = draw_below(rng, 100);
    if roll < 40 {
        let x = draw_coord(rng);
        let y = draw_coord(rng);
        let quarter_turns = draw_below(rng, 4) as i32;
        let on_front = draw_below(rng, 2) == 0;
        let pin_index = draw_below(rng, 2) as i32;
        let net_no = 1 + draw_below(rng, 4) as i32;
        let clearance_class = (1 + draw_below(rng, 2)) as usize;
        RandomItem::Pin {
            location: IntPoint { x, y },
            quarter_turns,
            on_front,
            pin_index,
            net_no,
            clearance_class,
        }
    } else if roll < 70 {
        let x = draw_coord(rng);
        let y = draw_coord(rng);
        let net_no = 1 + draw_below(rng, 4) as i32;
        let clearance_class = (1 + draw_below(rng, 2)) as usize;
        let attach = draw_below(rng, 2) == 0;
        RandomItem::Via { center: IntPoint { x, y }, net_no, clearance_class, attach }
    } else {
        let layer = draw_below(rng, 2) as usize;
        let x1 = draw_coord(rng);
        let y1 = draw_coord(rng);
        let from = IntPoint { x: x1, y: y1 };
        let to = draw_far_end(rng, from);
        let half_width = 5 + draw_below(rng, 30) as i32;
        let net_no = 1 + draw_below(rng, 4) as i32;
        let clearance_class = (1 + draw_below(rng, 2)) as usize;
        RandomItem::Trace { layer, from, to, half_width, net_no, clearance_class }
    }
}

/// The box `random_box(range, min_size, max_size)` draws after `s`: a width
/// and a height in `min_size..=max_size`, then the lower-left corner in
/// `-range..=range`.
pub open spec fn box_drawn(s: u64, range: i32, min_size: i32, max_size: i32) -> IntBox {
    let s1 = xorshift(s);
    let s2 = xorshift(s1);
    let s3 = xorshift(s2);
    let s4 = xorshift(s3);
    let m = (max_size - min_size + 1) as u64;
    let r = (2 * range + 1) as u64;
    let x = (s3 % r) as int - range;
    let y = (s4 % r) as int - range;
    IntBox::from_coords_spec(
        x as i32,
        y as i32,
        (x + min_size + (s1 % m) as int) as i32,
        (y + min_size + (s2 % m) as int) as i32,
    )
}

fn draw_box(rng: &mut XorShift64, range: i32, min_size: i32, max_size: i32) -> (b: IntBox)
    requires
        0 <= range <= 0x3FFF_FFFF,
        0 <= min_size <= max_size <= 0x3FFF_FFFF,
    ensures
        b == box_drawn(old(rng).state, range, min_size, max_size),
        final(rng).state == xorshift(xorshift(xorshift(xorshift(old(rng).state)))),
{
    let b = random_box(rng, range, min_size, max_size);
    let ghost s = old(rng).state;
    let ghost m = (max_size - min_size + 1) as u64;
    assert(xorshift(s) % m < m);
    assert(xorshift(xorshift(s)) % m < m);
    b
}

/// The area the script draws after `s` for an obstacle (`with_net` false) or
/// a conduction area (`with_net` true): a box with sides of 200 to 2000, a
/// layer, for a conduction area a net, a clearance class, and for a
/// conduction area whether it is an obstacle too. Answers
/// `(box, layer, net, class, obstacle)` and the state after it; an obstacle
/// reports net 0 and not-an-obstacle.
pub open spec fn drawn_area(s: u64, with_net: bool) -> ((IntBox, usize, i32, usize, bool), u64) {
    let b = box_drawn(s, 12000, 200, 2000);
    let s4 = xorshift(xorshift(xorshift(xorshift(s))));
    let s5 = xorshift(s4);
    let s6 = xorshift(s5);
    let s7 = xorshift(s6);
    let s8 = xorshift(s7);
    if with_net {
        (
            (
                b,
                below(s5, 2) as usize,
                (1 + below(s6, 4)) as i32,
                (1 + below(s7, 2)) as usize,
                below(s8, 2) == 0,
            ),
            s8,
        )
    } else {
        ((b, below(s5, 2) as usize, 0, (1 + below(s6, 2)) as usize, false), s6)
    }
}

/// `insert_random_obstacle` and `insert_random_conduction`: the area drawn;
/// see [`drawn_area`].
pub fn plan_area(rng: &mut XorShift64, with_net: bool) -> (area: (IntBox, usize, i32, usize, bool))
    ensures
        (area, final(rng).state) == drawn_area(old(rng).state, with_net),
{
    let b = draw_box(rng, 12000, 200, 2000);
    let layer = draw_below(rng, 2) as usize;
    if with_net {
        let net_no = 1 + draw_below(rng, 4) as i32;
        let clearance_class = (1 + draw_below(rng, 2)) as usize;
        let is_obstacle = draw_below(rng, 2) == 0;
        (b, layer, net_no, clearance_class, is_obstacle)
    } else {
        let clearance_class = (1 + draw_below(rng, 2)) as usize;
        (b, layer, 0, clearance_class, false)
    }
}

/// A query box of the script after `s`: sides of 50 to 3000, the corner in
/// `-15000..=15000`.
pub open spec fn query_drawn(s: u64) -> IntBox {
    box_drawn(s, 15000, 50, 3000)
}

/// The next overlap query of the script; see [`query_drawn`].
pub fn plan_overlap_query(rng: &mut XorShift64) -> (b: IntBox)
    ensures
        b == query_drawn(old(rng).state),
        final(rng).state == xorshift(xorshift(xorshift(xorshift(old(rng).state)))),
{
    draw_box(rng, 15000, 50, 3000)
}

/// The clearance query the script draws after `s`: a query box, a layer, a
/// clearance class, and with one chance in four a net to ignore. Answers the
/// query and the state after it.
pub open spec fn drawn_clearance_query(s: u64) -> ((IntBox, usize, usize, Seq<i32>), u64) {
    let s4 = xorshift(xorshift(xorshift(xorshift(s))));
    let s5 = xorshift(s4);
    let s6 = xorshift(s5);
    let s7 = xorshift(s6);
    let s8 = xorshift(s7);
    let head = (query_drawn(s), below(s5, 2) as usize, (1 + below(s6, 2)) as usize);
    if below(s7, 4) == 0 {
        ((head.0, head.1, head.2, seq![(1 + below(s8, 4)) as i32]), s8)
    } else {
        ((head.0, head.1, head.2, Seq::empty()), s7)
    }
}

/// The next clearance query of the script; see [`drawn_clearance_query`].
pub fn plan_clearance_query(rng: &mut XorShift64) -> (q: (IntBox, usize, usize, Vec<i32>))
    ensures
        ((q.0, q.1, q.2, q.3@), final(rng).state) == drawn_clearance_query(old(rng).state),
{
    let b = draw_box(rng, 15000, 50, 3000);
    let layer = draw_below(rng, 2) as usize;
    let clearance_class = (1 + draw_below(rng, 2)) as usize;
    let mut ignore: Vec<i32> = Vec::new();
    if draw_below(rng, 4) == 0 {
        ignore.push(1 + draw_below(rng, 4) as i32);
    }
    assert(ignore@ =~= drawn_clearance_query(old(rng).state).0.3);
    (b, layer, clearance_class, ignore)
}

/// A random trace never starts and ends at the same point: its far end is
/// drawn again until it differs from the start.
pub proof fn lemma_trace_ends_differ(s0: u64)
    requires
        item_drawn(s0),
    ensures
        drawn_item(s0).0 matches RandomItem::Trace { from, to, .. } ==> from != to,
{
    let s1 = xorshift(s0);
    if below(s1, 100) >= 70 {
        let s4 = xorshift(xorshift(xorshift(s1)));
        let from = trace_start(s0);
        let fuel = choose|fuel: nat| far_end(s4, from, fuel) is Some;
        lemma_far_end_differs(s4, from, fuel);
    }
}

} // verus!
