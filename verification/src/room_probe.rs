//! The expansion-room probes: the obstacles they scatter over the board, the
//! rooms and neighbours the comparator probes draw, and the small renderings
//! they print.
use vstd::prelude::*;
use crate::geometry::{IntBox, IntOctagon};
use crate::kinds::TreeObject;
use crate::text::{decimal, push_char, push_int, push_str};
use crate::xorshift::{advanced, bounded, lemma_advanced_add, span, xorshift, XorShift64};

verus! {

/// The box `box_(range, min_size, max_size)` draws from state `t`: width,
/// height, then the lower-left corner.
pub open spec fn drawn_box(t: u64, range: int, min_size: int, max_size: int) -> IntBox {
    let w = min_size + bounded(advanced(t, 1), max_size - min_size + 1);
    let h = min_size + bounded(advanced(t, 2), max_size - min_size + 1);
    let x = bounded(advanced(t, 3), 2 * range + 1) - range;
    let y = bounded(advanced(t, 4), 2 * range + 1) - range;
    IntBox::from_coords_spec(x as i32, y as i32, (x + w) as i32, (y + h) as i32)
}

fn draw_box(rng: &mut XorShift64, range: i32, min_size: i32, max_size: i32) -> (b: IntBox)
    requires
        0 <= range <= 0x3FFF_FFFF,
        0 <= min_size <= max_size <= 0x3FFF_FFFF,
    ensures
        final(rng).state == advanced(old(rng).state, 4),
        b == drawn_box(old(rng).state, range as int, min_size as int, max_size as int),
{
    proof {
        reveal_with_fuel(advanced, 5);
    }
    let b = rng.box_(range, min_size, max_size);
    b
}

/// One obstacle of the scattered board, drawn from state `t`: a box of
/// sides `100..=2500` with its corner in `-9000..=9000`, then its layer.
pub open spec fn obstacle_at(t: u64) -> (IntBox, usize) {
    (drawn_box(t, 9000, 100, 2500), bounded(advanced(t, 5), 2) as usize)
}

/// The obstacles of `build(mode, rng, count)`: `count` of them (none when
/// `count` is not positive), each drawn by five steps of the stream.
pub fn obstacles(rng: &mut XorShift64, count: i32) -> (v: Vec<(IntBox, usize)>)
    ensures
        v@.len() == (if count < 0 { 0 } else { count as int }),
        forall|k: int|
            0 <= k < v@.len() ==> #[trigger] v@[k] == obstacle_at(
                advanced(old(rng).state, (5 * k) as nat),
            ),
        final(rng).state == advanced(old(rng).state, (5 * v@.len()) as nat),
{
    let ghost s0 = rng.state;
    let mut v: Vec<(IntBox, usize)> = Vec::new();
    let mut i: i32 = 0;
    while i < count
        invariant
            0 <= i,
            i <= count || count < 0 && i == 0,
            v@.len() == i,
            rng.state == advanced(s0, (5 * i) as nat),
            forall|k: int|
                0 <= k < v@.len() ==> #[trigger] v@[k] == obstacle_at(advanced(s0, (5 * k) as nat)),
        decreases count - i,
    {
        let ghost t = rng.state;
        let shape = draw_box(rng, 9000, 100, 2500);
        let layer = rng.rnd(2) as usize;
        proof {
            reveal_with_fuel(advanced, 6);
            lemma_advanced_add(s0, (5 * i) as nat, 5);
        }
        v.push((shape, layer));
        i = i + 1;
    }
    v
}

/// `[true,false,...]`: the flags as Java prints a `boolean[]`.
pub open spec fn flag_items(values: Seq<bool>) -> Seq<char>
    decreases values.len(),
{
    if values.len() == 0 {
        Seq::<char>::empty()
    } else {
        flag_items(values.drop_last()) + (if values.len() > 1 {
            seq![',']
        } else {
            Seq::<char>::empty()
        }) + (if values.last() {
            seq!['t', 'r', 'u', 'e']
        } else {
            seq!['f', 'a', 'l', 's', 'e']
        })
    }
}

/// `flags(values)`: the flags between brackets, comma separated.
pub fn flags(values: &[bool]) -> (out: String)
    ensures
        out@ == seq!['['] + flag_items(values@) + seq![']'],
{
    let mut out = String::new();
    push_char(&mut out, '[');
    let mut i: usize = 0;
    while i < values.len()
        invariant
            i <= values@.len(),
            out@ == seq!['['] + flag_items(values@.take(i as int)),
        decreases values.len() - i,
    {
        assert(values@.take(i + 1).drop_last() =~= values@.take(i as int));
        if i > 0 {
            push_char(&mut out, ',');
        }
        if values[i] {
            push_char(&mut out, 't');
            push_char(&mut out, 'r');
            push_char(&mut out, 'u');
            push_char(&mut out, 'e');
        } else {
            push_char(&mut out, 'f');
            push_char(&mut out, 'a');
            push_char(&mut out, 'l');
            push_char(&mut out, 's');
            push_char(&mut out, 'e');
        }
        i = i + 1;
        assert(out@ =~= seq!['['] + flag_items(values@.take(i as int)));
    }
    assert(values@.take(values.len() as int) =~= values@);
    push_char(&mut out, ']');
    out
}

/// `regime_of(mode)`: 2 (45 degrees) for modes 6 and 8, 1 (90 degrees) for
/// modes 7 and 9, 0 (any angle) otherwise.
pub fn regime_of(mode: i32) -> (r: i32)
    ensures
        r == (if mode == 6 || mode == 8 {
            2int
        } else if mode == 7 || mode == 9 {
            1int
        } else {
            0int
        }),
{
    match mode {
        6 | 8 => 2,
        7 | 9 => 1,
        _ => 0,
    }
}

/// `item<id>` for an item; `cfsr<id>` for a room, with the room's own number
/// when it is known and the low 16 bits of its id otherwise.
pub open spec fn object_label(object: TreeObject, room_no: Option<i32>) -> Seq<char> {
    match object {
        TreeObject::Item(id) => seq!['i', 't', 'e', 'm'] + decimal(id as int),
        TreeObject::Room(id) => seq!['c', 'f', 's', 'r'] + decimal(
            match room_no {
                Some(n) => n as int,
                None => id as int % 65536,
            },
        ),
    }
}

/// `describe_object(object)`, given the number of the room it names, if the
/// room store knows it: see [`object_label`].
pub fn object_text(object: TreeObject, room_no: Option<i32>) -> (out: String)
    ensures
        out@ == object_label(object, room_no),
{
    let mut out = String::new();
    match object {
        TreeObject::Item(id) => {
            push_char(&mut out, 'i');
            push_char(&mut out, 't');
            push_char(&mut out, 'e');
            push_char(&mut out, 'm');
            push_int(&mut out, id as i64);
        },
        TreeObject::Room(id) => {
            push_char(&mut out, 'c');
            push_char(&mut out, 'f');
            push_char(&mut out, 's');
            push_char(&mut out, 'r');
            let n: i64 = match room_no {
                Some(n) => n as i64,
                None => (id % 65536) as i64,
            };
            push_int(&mut out, n);
        },
    }
    assert(out@ =~= object_label(object, room_no));
    out
}

/// A room whose coordinates leave room for the probes' arithmetic.
pub open spec fn room_ok(b: IntBox) -> bool {
    &&& -0x3FFF_0000 <= b.ll.x <= 0x3FFF_0000
    &&& -0x3FFF_0000 <= b.ll.y <= 0x3FFF_0000
    &&& -0x3FFF_0000 <= b.ur.x <= 0x3FFF_0000
    &&& -0x3FFF_0000 <= b.ur.y <= 0x3FFF_0000
}

/// The probe room and its neighbour count, and (for the comparator probe)
/// the side every neighbour takes in stress mode.
#[derive(Clone, Copy, PartialEq, Eq, Debug)]
pub struct ProbeRoom {
    pub room: IntBox,
    pub count: i32,
    pub fixed_side: i32,
}

/// The comparator probe's room from state `t`: a box of sides `400..=2000`
/// with its corner in `-2000..=2000`, then `2 + rnd(4)` neighbours and a
/// side `rnd(4)`.
pub open spec fn comparator_room_at(t: u64) -> ProbeRoom {
    ProbeRoom {
        room: drawn_box(t, 2000, 400, 2000),
        count: (2 + bounded(advanced(t, 5), 4)) as i32,
        fixed_side: bounded(advanced(t, 6), 4) as i32,
    }
}

/// Draws the comparator probe's room: see [`comparator_room_at`].
pub fn comparator_room(rng: &mut XorShift64) -> (r: ProbeRoom)
    ensures
        r == comparator_room_at(old(rng).state),
        final(rng).state == advanced(old(rng).state, 6),
        room_ok(r.room),
        2 <= r.count < 6,
        0 <= r.fixed_side < 4,
{
    let room = draw_box(rng, 2000, 400, 2000);
    let count = 2 + rng.rnd(4);
    let fixed_side = rng.rnd(4);
    proof {
        reveal_with_fuel(advanced, 7);
    }
    ProbeRoom { room, count, fixed_side }
}

/// A corner-touch neighbour is a box of sides 100 to 1500 with its corner in
/// `-3000..=3000`, touching sides below four, the room's corner flag always
/// set, the neighbour's set exactly on an even seventh draw, and an object
/// number in `1..=5`.
pub proof fn lemma_corner_neighbour_ranges(t: u64)
    ensures
        ({
            let r = corner_neighbour_at(t);
            &&& -3000 <= r.shape.ll.x <= 3000 && -3000 <= r.shape.ll.y <= 3000
            &&& 100 <= r.shape.ur.x - r.shape.ll.x <= 1500 && 100 <= r.shape.ur.y - r.shape.ll.y
                <= 1500
            &&& 0 <= r.room_side < 4 && 0 <= r.neighbour_side < 4
            &&& r.room_corner
            &&& r.neighbour_corner == (advanced(t, 7) % 2 == 0)
            &&& 1 <= r.object_id <= 5
        }),
{
    lemma_drawn_box_range(t, 3000, 100, 1500);
    lemma_bounded_range(advanced(t, 5), 4);
    lemma_bounded_range(advanced(t, 6), 4);
    lemma_bounded_range(advanced(t, 7), 2);
    lemma_bounded_range(advanced(t, 8), 5);
    assert(bounded(advanced(t, 7), 2) == advanced(t, 7) % 2);
}

/// The corner-touch probe's room from state `t`: a box as for the
/// comparator probe, then `3 + rnd(3)` neighbours.
pub open spec fn corner_room_at(t: u64) -> ProbeRoom {
    ProbeRoom {
        room: drawn_box(t, 2000, 400, 2000),
        count: (3 + bounded(advanced(t, 5), 3)) as i32,
        fixed_side: 0,
    }
}

/// Draws the corner-touch probe's room: see [`corner_room_at`].
pub fn corner_room(rng: &mut XorShift64) -> (r: ProbeRoom)
    ensures
        r == corner_room_at(old(rng).state),
        final(rng).state == advanced(old(rng).state, 5),
        room_ok(r.room),
        3 <= r.count < 6,
{
    let room = draw_box(rng, 2000, 400, 2000);
    let count = 3 + rng.rnd(3);
    proof {
        reveal_with_fuel(advanced, 6);
    }
    ProbeRoom { room, count, fixed_side: 0 }
}

/// A neighbour the comparator probes draw: its box, which sides touch, the
/// two corner-touch flags and the object number it carries.
#[derive(Clone, Copy, PartialEq, Eq, Debug)]
pub struct NeighbourDraw {
    pub shape: IntBox,
    pub room_side: i32,
    pub neighbour_side: i32,
    pub room_corner: bool,
    pub neighbour_corner: bool,
    pub object_id: i32,
}

/// The box of a neighbour on side `side` of `room` (0 below, 1 right, 2
/// above, any other value left), 300 deep, `len` long and `offset` or
/// `offset_y` along the side.
pub open spec fn side_box(room: IntBox, side: int, offset: int, offset_y: int, len: int) -> IntBox {
    if side == 0 {
        IntBox::from_coords_spec(
            (room.ll.x + offset) as i32,
            (room.ll.y - 300) as i32,
            (room.ll.x + offset + len) as i32,
            room.ll.y,
        )
    } else if side == 1 {
        IntBox::from_coords_spec(
            room.ur.x,
            (room.ll.y + offset_y) as i32,
            (room.ur.x + 300) as i32,
            (room.ll.y + offset_y + len) as i32,
        )
    } else if side == 2 {
        IntBox::from_coords_spec(
            (room.ll.x + offset) as i32,
            room.ur.y,
            (room.ll.x + offset + len) as i32,
            (room.ur.y + 300) as i32,
        )
    } else {
        IntBox::from_coords_spec(
            (room.ll.x - 300) as i32,
            (room.ll.y + offset_y) as i32,
            room.ll.x,
            (room.ll.y + offset_y + len) as i32,
        )
    }
}

/// The comparator probe's next neighbour of `room` from state `s`. Outside
/// stress mode the side is drawn first; then the length `20 + rnd(400)`, the
/// two offsets, the two corner flags (one in four and one in three, or one
/// in two each under stress) and the object number (`1..=6`, or `1..=4`
/// under stress). The touching sides are the geometry's, so they are left 0
/// here.
pub open spec fn neighbour_at(s: u64, room: IntBox, stress: bool, fixed_side: i32) -> (
    NeighbourDraw,
    u64,
) {
    let t = if stress {
        s
    } else {
        xorshift(s)
    };
    let side = if stress {
        fixed_side as int
    } else {
        bounded(t, 4)
    };
    let t1 = xorshift(t);
    let len = 20 + bounded(t1, 400);
    let t2 = xorshift(t1);
    let offset = bounded(t2, span(room.ur.x - room.ll.x - len));
    let t3 = xorshift(t2);
    let offset_y = bounded(t3, span(room.ur.y - room.ll.y - len));
    let t4 = xorshift(t3);
    let t5 = xorshift(t4);
    let t6 = xorshift(t5);
    (
        NeighbourDraw {
            shape: side_box(room, side, offset, offset_y, len),
            room_side: 0,
            neighbour_side: 0,
            room_corner: if stress {
                bounded(t4, 2) == 0
            } else {
                bounded(t4, 4) == 0
            },
            neighbour_corner: if stress {
                bounded(t5, 2) == 0
            } else {
                bounded(t5, 3) == 0
            },
            object_id: (1 + if stress {
                bounded(t6, 4)
            } else {
                bounded(t6, 6)
            }) as i32,
        },
        t6,
    )
}

/// Draws the comparator probe's next neighbour: see [`neighbour_at`].
pub fn comparator_neighbour(rng: &mut XorShift64, room: &IntBox, stress: bool, fixed_side: i32) -> (r:
    NeighbourDraw)
    requires
        room_ok(*room),
    ensures
        (r, final(rng).state) == neighbour_at(old(rng).state, *room, stress, fixed_side),
{
    let side = if stress {
        fixed_side
    } else {
        rng.rnd(4)
    };
    let len = 20 + rng.rnd(400);
    let dx = room.ur.x - room.ll.x - len;
    let offset = rng.rnd(if dx < 1 { 1 } else { dx });
    let dy = room.ur.y - room.ll.y - len;
    let offset_y = rng.rnd(if dy < 1 { 1 } else { dy });
    let shape = if side == 0 {
        IntBox::from_coords(room.ll.x + offset, room.ll.y - 300, room.ll.x + offset + len, room.ll.y)
    } else if side == 1 {
        IntBox::from_coords(
            room.ur.x,
            room.ll.y + offset_y,
            room.ur.x + 300,
            room.ll.y + offset_y + len,
        )
    } else if side == 2 {
        IntBox::from_coords(room.ll.x + offset, room.ur.y, room.ll.x + offset + len, room.ur.y + 300)
    } else {
        IntBox::from_coords(
            room.ll.x - 300,
            room.ll.y + offset_y,
            room.ll.x,
            room.ll.y + offset_y + len,
        )
    };
    let room_corner = if stress {
        rng.rnd(2) == 0
    } else {
        rng.rnd(4) == 0
    };
    let neighbour_corner = if stress {
        rng.rnd(2) == 0
    } else {
        rng.rnd(3) == 0
    };
    let object_id = if stress {
        1 + rng.rnd(4)
    } else {
        1 + rng.rnd(6)
    };
    NeighbourDraw { shape, room_side: 0, neighbour_side: 0, room_corner, neighbour_corner, object_id }
}

/// Every neighbour the comparator probe draws lies outside the room, 300
/// deep, against one of its sides, on the side it drew (the fixed side under
/// stress, else the first draw modulo four: 0 below, 1 right, 2 above, 3
/// left): it shares the room's boundary line there, starts along that side
/// at or after the room's corner and before its far end, and is 20 to 419
/// long. Its corner flags and object number are the draws after the offsets
/// as remainders (one in four and one in three, or one in two each under
/// stress; objects `1..=6`, or `1..=4` under stress), and the touching sides
/// are left 0.
pub proof fn lemma_neighbour_touches(s: u64, room: IntBox, stress: bool, fixed_side: i32)
    requires
        room_ok(room),
    ensures
        ({
            let b = neighbour_at(s, room, stress, fixed_side).0.shape;
            let side = if stress {
                fixed_side as int
            } else {
                (xorshift(s) % 4) as int
            };
            let below = b.ur.y == room.ll.y && b.ll.y == room.ll.y - 300;
            let above = b.ll.y == room.ur.y && b.ur.y == room.ur.y + 300;
            let right = b.ll.x == room.ur.x && b.ur.x == room.ur.x + 300;
            let left = b.ur.x == room.ll.x && b.ll.x == room.ll.x - 300;
            let along_x = room.ll.x <= b.ll.x && 20 <= b.ur.x - b.ll.x < 420 && (room.ll.x
                < room.ur.x ==> b.ll.x < room.ur.x);
            let along_y = room.ll.y <= b.ll.y && 20 <= b.ur.y - b.ll.y < 420 && (room.ll.y
                < room.ur.y ==> b.ll.y < room.ur.y);
            &&& side == 0 ==> below && along_x
            &&& side == 1 ==> right && along_y
            &&& side == 2 ==> above && along_x
            &&& (side < 0 || side > 2) ==> left && along_y
        }),
        ({
            let (r, after) = neighbour_at(s, room, stress, fixed_side);
            let d = if stress {
                0nat
            } else {
                1nat
            };
            &&& after == advanced(s, d + 6)
            &&& r.room_side == 0 && r.neighbour_side == 0
            &&& r.room_corner == if stress {
                advanced(s, d + 4) % 2 == 0
            } else {
                advanced(s, d + 4) % 4 == 0
            }
            &&& r.neighbour_corner == if stress {
                advanced(s, d + 5) % 2 == 0
            } else {
                advanced(s, d + 5) % 3 == 0
            }
            &&& r.object_id == 1 + if stress {
                advanced(s, d + 6) % 4
            } else {
                advanced(s, d + 6) % 6
            }
        }),
{
    reveal_with_fuel(advanced, 8);
    let t = if stress {
        s
    } else {
        xorshift(s)
    };
    let t1 = xorshift(t);
    let t2 = xorshift(t1);
    let t3 = xorshift(t2);
    lemma_bounded_range(t, 4);
    lemma_bounded_range(t1, 400);
    let len = 20 + bounded(t1, 400);
    lemma_bounded_range(t2, span(room.ur.x - room.ll.x - len));
    lemma_bounded_range(t3, span(room.ur.y - room.ll.y - len));
    assert(bounded(t, 4) == t % 4);
    let t4 = xorshift(t3);
    let t5 = xorshift(t4);
    let t6 = xorshift(t5);
    lemma_bounded_range(t4, 2);
    lemma_bounded_range(t4, 4);
    lemma_bounded_range(t5, 2);
    lemma_bounded_range(t5, 3);
    lemma_bounded_range(t6, 4);
    lemma_bounded_range(t6, 6);
}

/// The corner-touch probe's next neighbour from state `t`: a box of sides
/// `100..=1500` with its corner in `-3000..=3000`, two touching sides below
/// four, the neighbour's corner flag (one in two) and an object number in
/// `1..=5`. The room's corner flag is always set.
pub open spec fn corner_neighbour_at(t: u64) -> NeighbourDraw {
    NeighbourDraw {
        shape: drawn_box(t, 3000, 100, 1500),
        room_side: bounded(advanced(t, 5), 4) as i32,
        neighbour_side: bounded(advanced(t, 6), 4) as i32,
        room_corner: true,
        neighbour_corner: bounded(advanced(t, 7), 2) == 0,
        object_id: (1 + bounded(advanced(t, 8), 5)) as i32,
    }
}

/// Draws the corner-touch probe's next neighbour: see
/// [`corner_neighbour_at`].
pub fn corner_neighbour(rng: &mut XorShift64) -> (r: NeighbourDraw)
    ensures
        r == corner_neighbour_at(old(rng).state),
        final(rng).state == advanced(old(rng).state, 8),
{
    let shape = draw_box(rng, 3000, 100, 1500);
    let room_side = rng.rnd(4);
    let neighbour_side = rng.rnd(4);
    let neighbour_corner = rng.rnd(2) == 0;
    let object_id = 1 + rng.rnd(5);
    proof {
        reveal_with_fuel(advanced, 9);
    }
    NeighbourDraw {
        shape,
        room_side,
        neighbour_side,
        room_corner: true,
        neighbour_corner,
        object_id,
    }
}

/// A draw below `m` answers a value in `0..m`.
proof fn lemma_bounded_range(v: u64, m: int)
    requires
        0 < m <= 0x7FFF_FFFF,
    ensures
        0 <= bounded(v, m) < m,
{
    assert(v % (m as u64) < m as u64);
}

/// A drawn box has its corner within `range` of the origin and sides within
/// `min_size..=max_size`.
proof fn lemma_drawn_box_range(t: u64, range: int, min_size: int, max_size: int)
    requires
        0 <= range <= 0x3FFF_0000,
        0 <= min_size <= max_size <= 0x3FFF_0000,
    ensures
        ({
            let b = drawn_box(t, range, min_size, max_size);
            &&& -range <= b.ll.x <= range
            &&& -range <= b.ll.y <= range
            &&& b.ll.x + min_size <= b.ur.x <= b.ll.x + max_size
            &&& b.ll.y + min_size <= b.ur.y <= b.ll.y + max_size
        }),
{
    lemma_bounded_range(advanced(t, 1), max_size - min_size + 1);
    lemma_bounded_range(advanced(t, 2), max_size - min_size + 1);
    lemma_bounded_range(advanced(t, 3), 2 * range + 1);
    lemma_bounded_range(advanced(t, 4), 2 * range + 1);
}

/// One seed room of the room-completion probe, drawn from state `t`: a box of
/// sides `500..=3000` with its corner in `-9000..=9000`, then its layer.
pub open spec fn seed_room_at(t: u64) -> (IntBox, usize) {
    (drawn_box(t, 9000, 500, 3000), bounded(advanced(t, 5), 2) as usize)
}

/// Draws a seed room: see [`seed_room_at`].
pub fn seed_room(rng: &mut XorShift64) -> (r: (IntBox, usize))
    ensures
        r == seed_room_at(old(rng).state),
        final(rng).state == advanced(old(rng).state, 5),
{
    let shape = draw_box(rng, 9000, 500, 3000);
    let layer = rng.rnd(2) as usize;
    proof {
        reveal_with_fuel(advanced, 6);
    }
    (shape, layer)
}

/// The octagon `octagon(b)` draws from state `t`: the box's sides with its
/// four corners clipped by draws below 300.
pub open spec fn drawn_octagon(t: u64, b: IntBox) -> IntOctagon {
    IntOctagon {
        left_x: b.ll.x,
        bottom_y: b.ll.y,
        right_x: b.ur.x,
        top_y: b.ur.y,
        upper_left_diagonal_x: (b.ll.x - b.ur.y + bounded(advanced(t, 1), 300)) as i32,
        lower_right_diagonal_x: (b.ur.x - b.ll.y - bounded(advanced(t, 2), 300)) as i32,
        lower_left_diagonal_x: (b.ll.x + b.ll.y + bounded(advanced(t, 3), 300)) as i32,
        upper_right_diagonal_x: (b.ur.x + b.ur.y - bounded(advanced(t, 4), 300)) as i32,
    }
}

/// The box `inside(outer)` draws from state `t`: sides `10..310`, its corner
/// in `outer`.
pub open spec fn drawn_inside(t: u64, outer: IntBox) -> IntBox {
    let w = 10 + bounded(advanced(t, 1), 300);
    let h = 10 + bounded(advanced(t, 2), 300);
    let x = outer.ll.x + bounded(advanced(t, 3), span(outer.ur.x - outer.ll.x - w));
    let y = outer.ll.y + bounded(advanced(t, 4), span(outer.ur.y - outer.ll.y - h));
    IntBox::from_coords_spec(x as i32, y as i32, (x + w) as i32, (y + h) as i32)
}

/// The shape of a room to complete: none (unbounded), a box, or an octagon.
#[derive(Clone, Copy, PartialEq, Eq, Debug)]
pub enum RoomShape {
    Unbounded,
    Box(IntBox),
    Octagon(IntOctagon),
}

/// The object a completion ignores: nothing, one of the seed rooms (by its
/// index), or an item.
#[derive(Clone, Copy, PartialEq, Eq, Debug)]
pub enum IgnoredObject {
    Nothing,
    SeedRoom(usize),
    Item(u32),
}

/// One call of the room-completion probe.
#[derive(Clone, Copy, PartialEq, Eq, Debug)]
pub struct RoomCall {
    pub shape: RoomShape,
    pub contained: IntBox,
    pub layer: usize,
    pub net_number: i32,
    pub ignore_object: IgnoredObject,
    pub ignore_shape: Option<IntBox>,
}

/// Seed rooms whose coordinates leave room for growing them by 2000.
pub open spec fn seeds_ok(seeds: Seq<IntBox>) -> bool {
    &&& seeds.len() == 3
    &&& forall|k: int| 0 <= k < 3 ==> room_ok(#[trigger] seeds[k])
}

/// The call the probe draws from state `t` with the seed rooms `seeds`, by
/// 28 draws: the shape's kind, a box of sides `200..=6000`, an octagon over
/// it, a box inside it, a loose box of sides `10..=400`, whether the
/// contained shape is the loose box (one chance in four) or the inner one,
/// the layer, the net, what to ignore (nothing, a seed room, an item), which
/// seed room, the kind of ignored shape (none, a box of sides `100..=4000`,
/// the seed room grown on every side), that box, and the growth below 2000.
pub open spec fn room_call_at(t: u64, seeds: Seq<IntBox>) -> RoomCall {
    let shape_kind = bounded(advanced(t, 1), 3);
    let shape_box = drawn_box(advanced(t, 1), 9000, 200, 6000);
    let inside_box = drawn_inside(advanced(t, 9), shape_box);
    let loose_box = drawn_box(advanced(t, 13), 9000, 10, 400);
    let ignore_kind = bounded(advanced(t, 21), 4);
    let ignore_room = bounded(advanced(t, 22), 3);
    let ignore_shape_kind = bounded(advanced(t, 23), 3);
    let grow = bounded(advanced(t, 28), 2000);
    let seed = seeds[ignore_room];
    RoomCall {
        shape: if shape_kind == 0 {
            RoomShape::Unbounded
        } else if shape_kind == 1 {
            RoomShape::Box(shape_box)
        } else {
            RoomShape::Octagon(drawn_octagon(advanced(t, 5), shape_box))
        },
        contained: if bounded(advanced(t, 18), 4) == 0 { loose_box } else { inside_box },
        layer: bounded(advanced(t, 19), 2) as usize,
        net_number: (1 + bounded(advanced(t, 20), 3)) as i32,
        ignore_object: if ignore_kind == 1 {
            IgnoredObject::SeedRoom(ignore_room as usize)
        } else if ignore_kind == 2 {
            IgnoredObject::Item((2 + ignore_room) as u32)
        } else {
            IgnoredObject::Nothing
        },
        ignore_shape: if ignore_shape_kind == 0 {
            None
        } else if ignore_shape_kind == 1 {
            Some(drawn_box(advanced(t, 23), 9000, 100, 4000))
        } else {
            Some(
                IntBox::from_coords_spec(
                    (seed.ll.x - grow) as i32,
                    (seed.ll.y - grow) as i32,
                    (seed.ur.x + grow) as i32,
                    (seed.ur.y + grow) as i32,
                ),
            )
        },
    }
}

/// A room-completion call asks on layer 0 or 1 for net 1, 2 or 3; a bounded
/// shape is a box of sides 200 to 6000 with its corner in `-9000..=9000`
/// (an octagon is cut from such a box); the contained box starts inside that
/// box or is a loose box of sides 10 to 400; an ignored seed room is one of
/// the three; and a grown seed room, where one is ignored as a shape, holds
/// the seed room with up to 1999 to spare on every side.
pub proof fn lemma_room_call_ranges(t: u64, seeds: Seq<IntBox>)
    requires
        seeds_ok(seeds),
    ensures
        ({
            let c = room_call_at(t, seeds);
            let shape_box = drawn_box(advanced(t, 1), 9000, 200, 6000);
            &&& c.layer < 2
            &&& 1 <= c.net_number <= 3
            &&& -9000 <= shape_box.ll.x <= 9000 && -9000 <= shape_box.ll.y <= 9000
            &&& 200 <= shape_box.ur.x - shape_box.ll.x <= 6000 && 200 <= shape_box.ur.y
                - shape_box.ll.y <= 6000
            &&& c.shape matches RoomShape::Box(b) ==> b == shape_box
            &&& c.shape matches RoomShape::Octagon(o) ==> o.left_x == shape_box.ll.x && o.bottom_y
                == shape_box.ll.y && o.right_x == shape_box.ur.x && o.top_y == shape_box.ur.y
            &&& (shape_box.ll.x <= c.contained.ll.x < shape_box.ur.x && shape_box.ll.y
                <= c.contained.ll.y < shape_box.ur.y) || (10 <= c.contained.ur.x - c.contained.ll.x
                <= 400 && 10 <= c.contained.ur.y - c.contained.ll.y <= 400)
            &&& c.ignore_object matches IgnoredObject::SeedRoom(k) ==> k < 3
            &&& c.ignore_object matches IgnoredObject::Item(id) ==> 2 <= id < 5
            &&& advanced(t, 23) % 3 == 2 ==> ({
                let seed = seeds[(advanced(t, 22) % 3) as int];
                &&& c.ignore_shape matches Some(b)
                &&& b.ll.x <= seed.ll.x && b.ll.y <= seed.ll.y && seed.ur.x <= b.ur.x && seed.ur.y
                    <= b.ur.y
                &&& seed.ll.x - b.ll.x < 2000 && b.ur.x - seed.ur.x < 2000
                &&& seed.ll.x - b.ll.x == seed.ll.y - b.ll.y && seed.ll.x - b.ll.x == b.ur.x
                    - seed.ur.x && seed.ll.x - b.ll.x == b.ur.y - seed.ur.y
            })
        }),
{
    lemma_bounded_range(advanced(t, 19), 2);
    lemma_bounded_range(advanced(t, 20), 3);
    lemma_bounded_range(advanced(t, 22), 3);
    lemma_bounded_range(advanced(t, 23), 3);
    lemma_bounded_range(advanced(t, 28), 2000);
    assert(bounded(advanced(t, 23), 3) == advanced(t, 23) % 3);
    assert(bounded(advanced(t, 22), 3) == advanced(t, 22) % 3);
    lemma_drawn_box_range(advanced(t, 1), 9000, 200, 6000);
    lemma_drawn_box_range(advanced(t, 13), 9000, 10, 400);
    let shape_box = drawn_box(advanced(t, 1), 9000, 200, 6000);
    let at = advanced(t, 9);
    lemma_bounded_range(advanced(at, 1), 300);
    lemma_bounded_range(advanced(at, 2), 300);
    let w = 10 + bounded(advanced(at, 1), 300);
    let h = 10 + bounded(advanced(at, 2), 300);
    lemma_bounded_range(advanced(at, 3), span(shape_box.ur.x - shape_box.ll.x - w));
    lemma_bounded_range(advanced(at, 4), span(shape_box.ur.y - shape_box.ll.y - h));
}

/// Draws one call of the room-completion probe: see [`room_call_at`].
pub fn room_call(rng: &mut XorShift64, seeds: &[IntBox]) -> (c: RoomCall)
    requires
        seeds_ok(seeds@),
    ensures
        c == room_call_at(old(rng).state, seeds@),
        final(rng).state == advanced(old(rng).state, 28),
{
    let ghost t = rng.state;
    let shape_kind = rng.rnd(3);
    proof {
        lemma_drawn_box_range(advanced(t, 1), 9000, 200, 6000);
    }
    let shape_box = draw_box(rng, 9000, 200, 6000);
    let ghost t5 = rng.state;
    let shape_oct = rng.octagon(&shape_box);
    let inside_box = rng.inside(&shape_box);
    let loose_box = draw_box(rng, 9000, 10, 400);
    let take_loose = rng.rnd(4) == 0;
    let contained = if take_loose { loose_box } else { inside_box };
    let layer = rng.rnd(2) as usize;
    let net_number = 1 + rng.rnd(3);
    let ignore_kind = rng.rnd(4);
    let ignore_room = rng.rnd(3) as usize;
    let ignore_shape_kind = rng.rnd(3);
    let ignore_box = draw_box(rng, 9000, 100, 4000);
    let grow = rng.rnd(2000);
    proof {
        reveal_with_fuel(advanced, 5);
        lemma_advanced_add(t, 1, 4);
        lemma_advanced_add(t, 5, 1);
        lemma_advanced_add(t, 5, 2);
        lemma_advanced_add(t, 5, 3);
        lemma_advanced_add(t, 5, 4);
        lemma_advanced_add(t, 9, 1);
        lemma_advanced_add(t, 9, 2);
        lemma_advanced_add(t, 9, 3);
        lemma_advanced_add(t, 9, 4);
        lemma_advanced_add(t, 13, 4);
        lemma_advanced_add(t, 17, 1);
        lemma_advanced_add(t, 18, 1);
        lemma_advanced_add(t, 19, 1);
        lemma_advanced_add(t, 20, 1);
        lemma_advanced_add(t, 21, 1);
        lemma_advanced_add(t, 22, 1);
        lemma_advanced_add(t, 23, 4);
        lemma_advanced_add(t, 27, 1);
        lemma_bounded_range(advanced(t, 22), 3);
        lemma_bounded_range(advanced(t, 28), 2000);
    }
    let shape = if shape_kind == 0 {
        RoomShape::Unbounded
    } else if shape_kind == 1 {
        RoomShape::Box(shape_box)
    } else {
        RoomShape::Octagon(shape_oct)
    };
    let ignore_object = if ignore_kind == 1 {
        IgnoredObject::SeedRoom(ignore_room)
    } else if ignore_kind == 2 {
        IgnoredObject::Item(2 + ignore_room as u32)
    } else {
        IgnoredObject::Nothing
    };
    let seed = seeds[ignore_room];
    let ignore_shape = if ignore_shape_kind == 0 {
        None
    } else if ignore_shape_kind == 1 {
        Some(ignore_box)
    } else {
        Some(
            IntBox::from_coords(
                seed.ll.x - grow,
                seed.ll.y - grow,
                seed.ur.x + grow,
                seed.ur.y + grow,
            ),
        )
    };
    RoomCall { shape, contained, layer, net_number, ignore_object, ignore_shape }
}

/// How a call prints what it ignores: `null`, `item<id>`, or `room<id>`
/// with the id of the seed room it names.
pub open spec fn ignore_label(object: IgnoredObject, seed_room_ids: Seq<u32>) -> Seq<char> {
    match object {
        IgnoredObject::Nothing => "null"@,
        IgnoredObject::Item(id) => "item"@ + decimal(id as int),
        IgnoredObject::SeedRoom(k) => "room"@ + decimal(seed_room_ids[k as int] as int),
    }
}

/// `describe_ignore(object, rooms)`: see [`ignore_label`].
pub fn ignore_text(object: IgnoredObject, seed_room_ids: &[u32]) -> (out: String)
    requires
        object matches IgnoredObject::SeedRoom(k) ==> k < seed_room_ids@.len(),
    ensures
        out@ == ignore_label(object, seed_room_ids@),
{
    let mut out = String::new();
    match object {
        IgnoredObject::Nothing => push_str(&mut out, "null"),
        IgnoredObject::Item(id) => {
            push_str(&mut out, "item");
            push_int(&mut out, id as i64);
        },
        IgnoredObject::SeedRoom(k) => {
            push_str(&mut out, "room");
            push_int(&mut out, seed_room_ids[k] as i64);
        },
    }
    out
}

} // verus!
