//! The mutation script of the board-history probe: the seed it derives from
//! the fixture's name, and the step that turns the next draws of the xorshift
//! stream, together with the board's counts, into one board mutation.
use vstd::prelude::*;
use crate::geometry::{IntBox, IntPoint};
use crate::manifest::utf16_units;
use crate::text::chars_of;
use crate::xorshift::{advanced, bounded, span, xorshift, XorShift64};

verus! {

/// The constant the seed hash starts from, and the seed that stands in for a
/// zero hash.
pub open spec fn golden() -> u64 {
    0x9E37_79B9_7F4A_7C15u64
}

/// One step of the seed hash: multiply by 1000003, add `v`, both modulo 2^64.
pub open spec fn hash_step(h: u64, v: u64) -> u64 {
    h.wrapping_mul(1_000_003).wrapping_add(v)
}

/// The UTF-16 code units of `s`, as Java's `charAt` walks them.
pub open spec fn code_units(s: Seq<char>) -> Seq<u32>
    decreases s.len(),
{
    if s.len() == 0 {
        Seq::<u32>::empty()
    } else {
        code_units(s.drop_last()) + utf16_units(s.last())
    }
}

/// The seed hash folded over the code units `units`.
pub open spec fn unit_hash(h: u64, units: Seq<u32>) -> u64
    decreases units.len(),
{
    if units.len() == 0 {
        h
    } else {
        hash_step(unit_hash(h, units.drop_last()), units.last() as u64)
    }
}

/// The stream seed of a run: the hash of the fixture's stem, the step count
/// and the routing count, with zero replaced by the starting constant.
pub open spec fn seed_of(stem: Seq<char>, steps: i32, route_k: i32) -> u64 {
    let h = hash_step(hash_step(unit_hash(golden(), code_units(stem)), steps as u64), route_k as u64);
    if h == 0 {
        golden()
    } else {
        h
    }
}

fn hashed(h: u64, v: u64) -> (r: u64)
    ensures
        r == hash_step(h, v),
{
    h.wrapping_mul(1_000_003).wrapping_add(v)
}

proof fn lemma_unit_hash_push(h: u64, units: Seq<u32>, u: u32)
    ensures
        unit_hash(h, units.push(u)) == hash_step(unit_hash(h, units), u as u64),
{
    assert(units.push(u).drop_last() =~= units);
}

/// `seed_for(stem, steps, route_k)`: see [`seed_of`].
pub fn seed_for(stem: &str, steps: i32, route_k: i32) -> (seed: u64)
    ensures
        seed == seed_of(stem@, steps, route_k),
        seed != 0,
{
    let chars = chars_of(stem);
    let mut h: u64 = 0x9E37_79B9_7F4A_7C15;
    let mut i: usize = 0;
    while i < chars.len()
        invariant
            i <= chars@.len(),
            chars@ == stem@,
            h == unit_hash(golden(), code_units(chars@.take(i as int))),
        decreases chars.len() - i,
    {
        let ghost before = code_units(chars@.take(i as int));
        assert(chars@.take(i + 1).drop_last() =~= chars@.take(i as int));
        let u = chars[i] as u32;
        if u <= 0xFFFF {
            proof {
                lemma_unit_hash_push(golden(), before, u);
            }
            h = hashed(h, u as u64);
            assert(before + utf16_units(chars@[i as int]) =~= before.push(u));
        } else {
            let hi: u32 = 0xD800 + (u - 0x10000) / 0x400;
            let lo: u32 = 0xDC00 + (u - 0x10000) % 0x400;
            proof {
                lemma_unit_hash_push(golden(), before, hi);
                lemma_unit_hash_push(golden(), before.push(hi), lo);
            }
            h = hashed(h, hi as u64);
            h = hashed(h, lo as u64);
            assert(before + utf16_units(chars@[i as int]) =~= before.push(hi).push(lo));
        }
        i = i + 1;
    }
    assert(chars@.take(chars.len() as int) =~= chars@);
    h = hashed(h, steps as u64);
    h = hashed(h, route_k as u64);
    if h == 0 {
        0x9E37_79B9_7F4A_7C15
    } else {
        h
    }
}

/// What the board looks like to the mutation script: its layer count and
/// how many traces, vias, items and saved snapshots it has.
#[derive(Clone, Copy, PartialEq, Eq, Debug)]
pub struct BoardCounts {
    pub layers: usize,
    pub traces: usize,
    pub vias: usize,
    pub items: usize,
    pub snapshots: usize,
}

/// Counts the script can draw an index from: at least one layer, and every
/// count small enough to be an `int` bound.
pub open spec fn counts_ok(c: BoardCounts) -> bool {
    &&& 1 <= c.layers <= i32::MAX
    &&& c.traces <= i32::MAX
    &&& c.vias <= i32::MAX
    &&& c.items <= i32::MAX
    &&& c.snapshots <= i32::MAX
}

/// An area whose coordinates leave room for the script's arithmetic.
pub open spec fn area_ok(a: IntBox) -> bool {
    &&& -0x3FFF_0000 <= a.ll.x <= 0x3FFF_0000
    &&& -0x3FFF_0000 <= a.ll.y <= 0x3FFF_0000
    &&& -0x3FFF_0000 <= a.ur.x <= 0x3FFF_0000
    &&& -0x3FFF_0000 <= a.ur.y <= 0x3FFF_0000
}

/// One step of the mutation script.
#[derive(Clone, Copy, PartialEq, Eq, Debug)]
pub enum Mutation {
    /// Insert a two-point trace on `layer` for net `net_no`.
    InsertTrace { layer: usize, net_no: i32, from: IntPoint, to: IntPoint },
    /// The two drawn end points coincide: nothing is inserted.
    SkipTrace,
    /// Remove the trace at this index of the descending-id trace list, if
    /// there is one.
    RemoveTrace(Option<usize>),
    /// Insert a via at `at` for net `net_no`, attached or not.
    InsertVia { at: IntPoint, net_no: i32, attach: bool },
    /// Move the via at this index by the vector, if there is a via.
    MoveVia(Option<(usize, i32, i32)>),
    /// Nothing; the stream still advances.
    Noop,
    /// Insert a square obstacle on `layer`.
    InsertObstacle { layer: usize, shape: IntBox },
    /// Restore the snapshot at this index, if there is one.
    RestoreSnapshot(Option<usize>),
    /// Set the item at this index unfixed (`true`) or shove-fixed (`false`),
    /// if there is an item.
    RefixItem(Option<(usize, bool)>),
}

/// A coordinate drawn in `[lo, lo + span(hi - lo))`.
pub open spec fn drawn(s: u64, lo: i32, hi: i32) -> i32 {
    (lo + bounded(s, span(hi - lo))) as i32
}

/// The mutation the script picks from state `s0`, and the state after it.
/// The first draw is a roll below 100; the thresholds 22, 40, 56, 68, 78, 88
/// and 96 pick the kind, and each kind draws its own values in turn.
pub open spec fn planned(s0: u64, a: IntBox, c: BoardCounts) -> (Mutation, u64) {
    let s1 = xorshift(s0);
    let roll = bounded(s1, 100);
    let s2 = xorshift(s1);
    let s3 = xorshift(s2);
    let s4 = xorshift(s3);
    let s5 = xorshift(s4);
    let s6 = xorshift(s5);
    let s7 = xorshift(s6);
    if roll < 22 {
        let from = IntPoint { x: drawn(s4, a.ll.x, a.ur.x), y: drawn(s5, a.ll.y, a.ur.y) };
        let to = IntPoint { x: drawn(s6, a.ll.x, a.ur.x), y: drawn(s7, a.ll.y, a.ur.y) };
        if from == to {
            (Mutation::SkipTrace, s7)
        } else {
            (
                Mutation::InsertTrace {
                    layer: bounded(s2, c.layers as int) as usize,
                    net_no: (1 + bounded(s3, 2)) as i32,
                    from,
                    to,
                },
                s7,
            )
        }
    } else if roll < 40 {
        if c.traces == 0 {
            (Mutation::RemoveTrace(None), s2)
        } else {
            (Mutation::RemoveTrace(Some(bounded(s2, c.traces as int) as usize)), s2)
        }
    } else if roll < 56 {
        (
            Mutation::InsertVia {
                at: IntPoint { x: drawn(s2, a.ll.x, a.ur.x), y: drawn(s3, a.ll.y, a.ur.y) },
                net_no: (1 + bounded(s4, 2)) as i32,
                attach: bounded(s5, 2) == 0,
            },
            s5,
        )
    } else if roll < 68 {
        if c.vias == 0 {
            (Mutation::MoveVia(None), s4)
        } else {
            (
                Mutation::MoveVia(
                    Some(
                        (
                            bounded(s2, c.vias as int) as usize,
                            (bounded(s3, 201) - 100) as i32,
                            (bounded(s4, 201) - 100) as i32,
                        ),
                    ),
                ),
                s4,
            )
        }
    } else if roll < 78 {
        (Mutation::Noop, s3)
    } else if roll < 88 {
        let x = drawn(s3, a.ll.x, a.ur.x);
        let y = drawn(s4, a.ll.y, a.ur.y);
        let w = 100 + bounded(s5, 900);
        (
            Mutation::InsertObstacle {
                layer: bounded(s2, c.layers as int) as usize,
                shape: IntBox::from_coords_spec(x, y, (x + w) as i32, (y + w) as i32),
            },
            s5,
        )
    } else if roll < 96 {
        if c.snapshots == 0 {
            (Mutation::RestoreSnapshot(None), s2)
        } else {
            (Mutation::RestoreSnapshot(Some(bounded(s2, c.snapshots as int) as usize)), s2)
        }
    } else {
        if c.items == 0 {
            (Mutation::RefixItem(None), s3)
        } else {
            (Mutation::RefixItem(Some((bounded(s2, c.items as int) as usize, bounded(s3, 2) == 0))), s3)
        }
    }
}

fn draw_in(rng: &mut XorShift64, lo: i32, hi: i32) -> (r: i32)
    requires
        -0x3FFF_0000 <= lo <= 0x3FFF_0000,
        -0x3FFF_0000 <= hi <= 0x3FFF_0000,
    ensures
        final(rng).state == xorshift(old(rng).state),
        r == drawn(final(rng).state, lo, hi),
        lo <= r < lo + span(hi - lo),
{
    let d = hi - lo;
    let w = if d < 1 { 1 } else { d };
    let v = rng.rnd(w);
    lo + v
}

fn draw_index(rng: &mut XorShift64, count: usize) -> (r: usize)
    requires
        1 <= count <= i32::MAX,
    ensures
        final(rng).state == xorshift(old(rng).state),
        r == bounded(final(rng).state, count as int),
        r < count,
{
    let v = rng.rnd(count as i32);
    v as usize
}

/// `mutate()`: draws one mutation of the script from the stream; see
/// [`planned`]. The caller carries it out on the board.
pub fn plan(rng: &mut XorShift64, area: &IntBox, counts: &BoardCounts) -> (m: Mutation)
    requires
        area_ok(*area),
        counts_ok(*counts),
    ensures
        (m, final(rng).state) == planned(old(rng).state, *area, *counts),
{
    let roll = rng.rnd(100);
    if roll < 22 {
        let layer = draw_index(rng, counts.layers);
        let net_no = 1 + rng.rnd(2);
        let x1 = draw_in(rng, area.ll.x, area.ur.x);
        let y1 = draw_in(rng, area.ll.y, area.ur.y);
        let x2 = draw_in(rng, area.ll.x, area.ur.x);
        let y2 = draw_in(rng, area.ll.y, area.ur.y);
        if x1 == x2 && y1 == y2 {
            Mutation::SkipTrace
        } else {
            Mutation::InsertTrace {
                layer,
                net_no,
                from: IntPoint { x: x1, y: y1 },
                to: IntPoint { x: x2, y: y2 },
            }
        }
    } else if roll < 40 {
        if counts.traces == 0 {
            rng.rnd(2);
            Mutation::RemoveTrace(None)
        } else {
            Mutation::RemoveTrace(Some(draw_index(rng, counts.traces)))
        }
    } else if roll < 56 {
        let x = draw_in(rng, area.ll.x, area.ur.x);
        let y = draw_in(rng, area.ll.y, area.ur.y);
        let net_no = 1 + rng.rnd(2);
        let attach = rng.rnd(2) == 0;
        Mutation::InsertVia { at: IntPoint { x, y }, net_no, attach }
    } else if roll < 68 {
        if counts.vias == 0 {
            rng.rnd(2);
            rng.rnd(2);
            rng.rnd(2);
            Mutation::MoveVia(None)
        } else {
            let index = draw_index(rng, counts.vias);
            let mx = rng.rnd(201) - 100;
            let my = rng.rnd(201) - 100;
            Mutation::MoveVia(Some((index, mx, my)))
        }
    } else if roll < 78 {
        rng.rnd(2);
        rng.rnd(2);
        Mutation::Noop
    } else if roll < 88 {
        let layer = draw_index(rng, counts.layers);
        let x = draw_in(rng, area.ll.x, area.ur.x);
        let y = draw_in(rng, area.ll.y, area.ur.y);
        let w = 100 + rng.rnd(900);
        Mutation::InsertObstacle { layer, shape: IntBox::from_coords(x, y, x + w, y + w) }
    } else if roll < 96 {
        if counts.snapshots == 0 {
            rng.rnd(2);
            Mutation::RestoreSnapshot(None)
        } else {
            Mutation::RestoreSnapshot(Some(draw_index(rng, counts.snapshots)))
        }
    } else {
        if counts.items == 0 {
            rng.rnd(2);
            rng.rnd(2);
            Mutation::RefixItem(None)
        } else {
            let index = draw_index(rng, counts.items);
            let unfixed = rng.rnd(2) == 0;
            Mutation::RefixItem(Some((index, unfixed)))
        }
    }
}

/// Whether a mutation only names what the board has: a layer below the
/// layer count, an index below the count it indexes, a net 1 or 2, points
/// inside the drawn area, a move of at most 100 each way and an obstacle of
/// side 100 to 999.
pub open spec fn names_existing(m: Mutation, a: IntBox, c: BoardCounts) -> bool {
    let in_x = |x: i32| a.ll.x <= x < a.ll.x + span(a.ur.x - a.ll.x);
    let in_y = |y: i32| a.ll.y <= y < a.ll.y + span(a.ur.y - a.ll.y);
    match m {
        Mutation::InsertTrace { layer, net_no, from, to } => layer < c.layers && 1 <= net_no <= 2
            && in_x(from.x) && in_y(from.y) && in_x(to.x) && in_y(to.y) && from != to,
        Mutation::SkipTrace => true,
        Mutation::RemoveTrace(i) => match i {
            Some(k) => k < c.traces,
            None => c.traces == 0,
        },
        Mutation::InsertVia { at, net_no, .. } => in_x(at.x) && in_y(at.y) && 1 <= net_no <= 2,
        Mutation::MoveVia(v) => match v {
            Some((k, dx, dy)) => k < c.vias && -100 <= dx <= 100 && -100 <= dy <= 100,
            None => c.vias == 0,
        },
        Mutation::Noop => true,
        Mutation::InsertObstacle { layer, shape } => layer < c.layers && in_x(shape.ll.x) && in_y(
            shape.ll.y,
        ) && 100 <= shape.ur.x - shape.ll.x < 1000 && shape.ur.x - shape.ll.x == shape.ur.y
            - shape.ll.y,
        Mutation::RestoreSnapshot(i) => match i {
            Some(k) => k < c.snapshots,
            None => c.snapshots == 0,
        },
        Mutation::RefixItem(v) => match v {
            Some((k, _)) => k < c.items,
            None => c.items == 0,
        },
    }
}

proof fn lemma_bounded_below(v: u64, bound: int)
    requires
        1 <= bound <= i32::MAX,
    ensures
        0 <= bounded(v, bound) < bound,
{
    assert((v % (bound as u64)) < bound);
}

/// Every mutation the script picks names only what the board has.
pub proof fn lemma_plan_names_existing(s: u64, a: IntBox, c: BoardCounts)
    requires
        area_ok(a),
        counts_ok(c),
    ensures
        names_existing(planned(s, a, c).0, a, c),
{
    let s1 = xorshift(s);
    let s2 = xorshift(s1);
    let s3 = xorshift(s2);
    let s4 = xorshift(s3);
    let s5 = xorshift(s4);
    let s6 = xorshift(s5);
    let s7 = xorshift(s6);
    let wx = span(a.ur.x - a.ll.x);
    let wy = span(a.ur.y - a.ll.y);
    lemma_bounded_below(s1, 100);
    lemma_bounded_below(s2, 2);
    lemma_bounded_below(s3, 2);
    lemma_bounded_below(s4, 2);
    lemma_bounded_below(s5, 2);
    lemma_bounded_below(s3, 201);
    lemma_bounded_below(s4, 201);
    lemma_bounded_below(s5, 900);
    lemma_bounded_below(s2, wx);
    lemma_bounded_below(s3, wx);
    lemma_bounded_below(s4, wx);
    lemma_bounded_below(s6, wx);
    lemma_bounded_below(s3, wy);
    lemma_bounded_below(s4, wy);
    lemma_bounded_below(s5, wy);
    lemma_bounded_below(s7, wy);
    lemma_bounded_below(s2, c.layers as int);
    if c.traces > 0 {
        lemma_bounded_below(s2, c.traces as int);
    }
    if c.vias > 0 {
        lemma_bounded_below(s2, c.vias as int);
    }
    if c.snapshots > 0 {
        lemma_bounded_below(s2, c.snapshots as int);
    }
    if c.items > 0 {
        lemma_bounded_below(s2, c.items as int);
    }
}

/// How the script reads the stream, draw by draw from state `s`: the first
/// draw below 100 picks the kind (below 22 a trace, then a removal below 40,
/// a via below 56, a move below 68, nothing below 78, an obstacle below 88, a
/// restore below 96, else a refix), and each kind takes its values from the
/// draws after it as remainders: a layer or an index by its count (none
/// exactly where the count is zero), a net as 1 plus a parity, a point by the
/// area's width and height from its lower-left corner, a move by 201 less
/// 100, an obstacle's side as 100 plus a remainder by 900, and a flag
/// (an inserted via attached, a refixed item unfixed) set exactly on an even
/// draw; a trace whose two drawn ends coincide is skipped.
pub proof fn lemma_plan_draws(s: u64, a: IntBox, c: BoardCounts)
    requires
        area_ok(a),
        counts_ok(c),
    ensures
        ({
            let (m, after) = planned(s, a, c);
            let roll = advanced(s, 1) % 100;
            let wx = span(a.ur.x - a.ll.x) as u64;
            let wy = span(a.ur.y - a.ll.y) as u64;
            &&& roll < 22 ==> (m is InsertTrace || m is SkipTrace) && after == advanced(s, 7)
            &&& roll < 22 ==> (m is SkipTrace <==> (advanced(s, 4) % wx == advanced(s, 6) % wx
                && advanced(s, 5) % wy == advanced(s, 7) % wy))
            &&& m matches Mutation::InsertTrace { layer, net_no, from, to } ==> {
                &&& roll < 22
                &&& layer == advanced(s, 2) % (c.layers as u64)
                &&& net_no == 1 + advanced(s, 3) % 2
                &&& from.x == a.ll.x + advanced(s, 4) % wx && from.y == a.ll.y + advanced(s, 5) % wy
                &&& to.x == a.ll.x + advanced(s, 6) % wx && to.y == a.ll.y + advanced(s, 7) % wy
            }
            &&& 22 <= roll < 40 ==> m is RemoveTrace && after == advanced(s, 2)
            &&& m matches Mutation::RemoveTrace(i) ==> (i is None <==> c.traces == 0) && (i matches Some(
                k,
            ) ==> k == advanced(s, 2) % (c.traces as u64))
            &&& 40 <= roll < 56 ==> m is InsertVia && after == advanced(s, 5)
            &&& m matches Mutation::InsertVia { at, net_no, attach } ==> {
                &&& 40 <= roll < 56
                &&& at.x == a.ll.x + advanced(s, 2) % wx
                &&& at.y == a.ll.y + advanced(s, 3) % wy
                &&& net_no == 1 + advanced(s, 4) % 2
                &&& attach == (advanced(s, 5) % 2 == 0)
            }
            &&& 56 <= roll < 68 ==> m is MoveVia && after == advanced(s, 4)
            &&& m matches Mutation::MoveVia(v) ==> (v is None <==> c.vias == 0) && (v matches Some(
                (k, dx, dy),
            ) ==> k == advanced(s, 2) % (c.vias as u64) && dx == advanced(s, 3) % 201 - 100 && dy
                == advanced(s, 4) % 201 - 100)
            &&& 68 <= roll < 78 ==> m is Noop && after == advanced(s, 3)
            &&& 78 <= roll < 88 ==> m is InsertObstacle && after == advanced(s, 5)
            &&& m matches Mutation::InsertObstacle { layer, shape } ==> {
                &&& layer == advanced(s, 2) % (c.layers as u64)
                &&& shape.ll.x == a.ll.x + advanced(s, 3) % wx
                &&& shape.ll.y == a.ll.y + advanced(s, 4) % wy
                &&& shape.ur.x - shape.ll.x == 100 + advanced(s, 5) % 900
                &&& shape.ur.y - shape.ll.y == shape.ur.x - shape.ll.x
            }
            &&& 88 <= roll < 96 ==> m is RestoreSnapshot && after == advanced(s, 2)
            &&& m matches Mutation::RestoreSnapshot(i) ==> (i is None <==> c.snapshots == 0) && (
            i matches Some(k) ==> k == advanced(s, 2) % (c.snapshots as u64))
            &&& 96 <= roll ==> m is RefixItem && after == advanced(s, 3)
            &&& m matches Mutation::RefixItem(v) ==> (v is None <==> c.items == 0) && (v matches Some(
                (k, unfixed),
            ) ==> k == advanced(s, 2) % (c.items as u64) && unfixed == (advanced(s, 3) % 2 == 0))
        }),
{
    reveal_with_fuel(advanced, 8);
    let s1 = xorshift(s);
    let s2 = xorshift(s1);
    let s3 = xorshift(s2);
    let s4 = xorshift(s3);
    let s5 = xorshift(s4);
    lemma_bounded_below(s1, 100);
    lemma_bounded_below(s3, 2);
    lemma_bounded_below(s4, 2);
    lemma_bounded_below(s5, 2);
    lemma_bounded_below(s2, span(a.ur.x - a.ll.x));
    lemma_bounded_below(s3, span(a.ur.y - a.ll.y));
    assert(bounded(s1, 100) == s1 % 100);
    assert(bounded(s3, 2) == s3 % 2);
    assert(bounded(s4, 2) == s4 % 2);
    assert(bounded(s5, 2) == s5 % 2);
    assert(bounded(s2, span(a.ur.x - a.ll.x)) == s2 % (span(a.ur.x - a.ll.x) as u64));
    assert(bounded(s3, span(a.ur.y - a.ll.y)) == s3 % (span(a.ur.y - a.ll.y) as u64));
    let s6 = xorshift(s5);
    let s7 = xorshift(s6);
    let wx = span(a.ur.x - a.ll.x);
    let wy = span(a.ur.y - a.ll.y);
    lemma_bounded_below(s2, 2);
    lemma_bounded_below(s3, wx);
    lemma_bounded_below(s4, wx);
    lemma_bounded_below(s6, wx);
    lemma_bounded_below(s4, wy);
    lemma_bounded_below(s5, wy);
    lemma_bounded_below(s7, wy);
    lemma_bounded_below(s3, 201);
    lemma_bounded_below(s4, 201);
    lemma_bounded_below(s5, 900);
    lemma_bounded_below(s2, c.layers as int);
    if c.traces > 0 {
        lemma_bounded_below(s2, c.traces as int);
    }
    if c.vias > 0 {
        lemma_bounded_below(s2, c.vias as int);
    }
    if c.snapshots > 0 {
        lemma_bounded_below(s2, c.snapshots as int);
    }
    if c.items > 0 {
        lemma_bounded_below(s2, c.items as int);
    }
}

} // verus!
