//! The xorshift64 stream the drivers draw coordinates, boxes and mutation
//! choices from, and the bounded draws built on it.
use vstd::prelude::*;
use crate::geometry::{IntBox, IntPoint, IntOctagon};

verus! {

/// One xorshift64 step: shifts 13 left, 7 right, 17 left.
pub open spec fn xorshift(s: u64) -> u64 {
    let a = s ^ (s << 13u64);
    let b = a ^ (a >> 7u64);
    b ^ (b << 17u64)
}

/// The state a non-zero seed starts from, and the fixed constant that stands
/// in for zero.
pub open spec fn seeded_state(seed: i64) -> u64 {
    if seed == 0 { 0x9E37_79B9_7F4A_7C15u64 } else { seed as u64 }
}

/// `rnd(bound)` on a draw `v`: the unsigned remainder, truncated to `i32`.
pub open spec fn bounded(v: u64, bound: int) -> int {
    ((v % (bound as u64)) as i32) as int
}

/// The state `k` steps after `s`.
pub open spec fn advanced(s: u64, k: nat) -> u64
    decreases k,
{
    if k == 0 {
        s
    } else {
        xorshift(advanced(s, (k - 1) as nat))
    }
}

/// Stepping `k` then `j` times is stepping `k + j` times.
pub proof fn lemma_advanced_add(s: u64, k: nat, j: nat)
    ensures
        advanced(advanced(s, k), j) == advanced(s, k + j),
    decreases j,
{
    if j > 0 {
        lemma_advanced_add(s, k, (j - 1) as nat);
    }
}

/// A non-zero state never steps to zero, so a stream seeded away from zero
/// never sticks there.
pub proof fn lemma_xorshift_nonzero(s: u64)
    requires
        s != 0,
    ensures
        xorshift(s) != 0,
{
    let a = s ^ (s << 13u64);
    let b = a ^ (a >> 7u64);
    let c = b ^ (b << 17u64);
    assert(a != 0) by (bit_vector)
        requires
            s != 0,
            a == s ^ (s << 13u64),
    ;
    assert(b != 0) by (bit_vector)
        requires
            a != 0,
            b == a ^ (a >> 7u64),
    ;
    assert(c != 0) by (bit_vector)
        requires
            b != 0,
            c == b ^ (b << 17u64),
    ;
}

/// A xorshift64 generator.
pub struct XorShift64 {
    pub state: u64,
}

impl XorShift64 {
    /// A generator on the given state, as-is.
    pub fn from_state(state: u64) -> (r: XorShift64)
        ensures
            r.state == state,
    {
        XorShift64 { state }
    }

    /// A generator seeded with `seed`; zero becomes a fixed non-zero constant
    /// so the stream does not stick at zero.
    pub fn new(seed: i64) -> (r: XorShift64)
        ensures
            r.state == seeded_state(seed),
            r.state != 0,
    {
        if seed == 0 {
            XorShift64 { state: 0x9E37_79B9_7F4A_7C15 }
        } else {
            assert(seed as u64 != 0) by (bit_vector)
                requires
                    seed != 0,
            ;
            XorShift64 { state: seed as u64 }
        }
    }

    /// Advances the state one step and answers it.
    pub fn next(&mut self) -> (r: u64)
        ensures
            final(self).state == xorshift(old(self).state),
            r == final(self).state,
    {
        let s = self.state;
        let a = s ^ (s << 13u64);
        let b = a ^ (a >> 7u64);
        let c = b ^ (b << 17u64);
        self.state = c;
        c
    }

    /// `rnd(bound)`: the next draw modulo `bound` taken as unsigned, as an `i32`.
    pub fn rnd(&mut self, bound: i32) -> (r: i32)
        requires
            bound != 0,
        ensures
            final(self).state == xorshift(old(self).state),
            r == bounded(final(self).state, bound as int),
            bound > 0 ==> 0 <= r < bound,
    {
        let v = self.next();
        let m = bound as u64;
        assert(m != 0) by (bit_vector)
            requires
                bound != 0,
                m == bound as u64,
        ;
        let r = (v % m) as i32;
        proof {
            if bound > 0 {
                assert(v % m < m);
            }
        }
        r
    }

    /// `rnd(bound)` over a 64-bit bound: the next draw modulo `bound`, as an `i64`.
    pub fn rnd_wide(&mut self, bound: u64) -> (r: i64)
        requires
            bound != 0,
        ensures
            final(self).state == xorshift(old(self).state),
            r == (final(self).state % bound) as i64,
    {
        let v = self.next();
        (v % bound) as i64
    }

    /// `range(bound)`: the next draw shifted right once (so it is never
    /// negative as a `long`), modulo `bound` taken as unsigned.
    pub fn range(&mut self, bound: i32) -> (r: i32)
        requires
            bound != 0,
        ensures
            final(self).state == xorshift(old(self).state),
            r == ((final(self).state >> 1u64) % (bound as u64)) as i32,
            bound > 0 ==> 0 <= r < bound,
    {
        let v = self.next() >> 1u64;
        let m = bound as u64;
        assert(m != 0) by (bit_vector)
            requires
                bound != 0,
                m == bound as u64,
        ;
        proof {
            if bound > 0 {
                assert(v % m < m);
            }
        }
        (v % m) as i32
    }

    /// `coord(range)`: a value in `-range..=range`.
    pub fn coord(&mut self, range: i32) -> (r: i32)
        requires
            0 <= range <= 0x3FFF_FFFF,
        ensures
            final(self).state == xorshift(old(self).state),
            r == bounded(final(self).state, 2 * range + 1) - range,
            -range <= r <= range,
    {
        self.rnd(2 * range + 1) - range
    }

    /// `box_(range, min_size, max_size)`: a box with a random lower-left
    /// corner in `-range..=range` and sides in `min_size..=max_size`; draws
    /// width, height, x, y in that order.
    pub fn box_(&mut self, range: i32, min_size: i32, max_size: i32) -> (b: IntBox)
        requires
            0 <= range <= 0x3FFF_FFFF,
            0 <= min_size <= max_size <= 0x3FFF_FFFF,
        ensures
            final(self).state == xorshift(xorshift(xorshift(xorshift(old(self).state)))),
            b.ur.x - b.ll.x == min_size + bounded(
                xorshift(old(self).state),
                max_size - min_size + 1,
            ),
            b.ur.y - b.ll.y == min_size + bounded(
                xorshift(xorshift(old(self).state)),
                max_size - min_size + 1,
            ),
            b.ll.x == bounded(xorshift(xorshift(xorshift(old(self).state))), 2 * range + 1) - range,
            b.ll.y == bounded(final(self).state, 2 * range + 1) - range,
    {
        let w = min_size + self.rnd(max_size - min_size + 1);
        let h = min_size + self.rnd(max_size - min_size + 1);
        let x = self.coord(range);
        let y = self.coord(range);
        IntBox::from_coords(x, y, x + w, y + h)
    }

    /// `grid_box()`: a box whose four ordinates are multiples of 500; draws
    /// width, height, x, y in that order.
    pub fn grid_box(&mut self) -> (b: IntBox)
        ensures
            final(self).state == xorshift(xorshift(xorshift(xorshift(old(self).state)))),
            b.ur.x - b.ll.x == 500 * (1 + bounded(xorshift(old(self).state), 4)),
            b.ur.y - b.ll.y == 500 * (1 + bounded(xorshift(xorshift(old(self).state)), 4)),
            b.ll.x == 500 * (bounded(xorshift(xorshift(xorshift(old(self).state))), 33) - 16),
            b.ll.y == 500 * (bounded(final(self).state, 33) - 16),
    {
        let w = 500 * (1 + self.rnd(4));
        let h = 500 * (1 + self.rnd(4));
        let x = 500 * (self.rnd(33) - 16);
        let y = 500 * (self.rnd(33) - 16);
        IntBox::from_coords(x, y, x + w, y + h)
    }

    /// `inside(outer)`: a box of sides `10..310` whose lower-left corner lies
    /// in `outer` (at most one unit past a degenerate one); draws width,
    /// height, x, y in that order.
    pub fn inside(&mut self, outer: &IntBox) -> (b: IntBox)
        requires
            -0x3FFF_FFFF <= outer.ll.x <= outer.ur.x <= 0x3FFF_FFFF,
            -0x3FFF_FFFF <= outer.ll.y <= outer.ur.y <= 0x3FFF_FFFF,
        ensures
            final(self).state == xorshift(xorshift(xorshift(xorshift(old(self).state)))),
            b.ur.x - b.ll.x == 10 + bounded(xorshift(old(self).state), 300),
            b.ur.y - b.ll.y == 10 + bounded(xorshift(xorshift(old(self).state)), 300),
            b.ll.x == outer.ll.x + bounded(
                xorshift(xorshift(xorshift(old(self).state))),
                span(outer.ur.x - outer.ll.x - (b.ur.x - b.ll.x)),
            ),
            b.ll.y == outer.ll.y + bounded(
                final(self).state,
                span(outer.ur.y - outer.ll.y - (b.ur.y - b.ll.y)),
            ),
    {
        let w = 10 + self.rnd(300);
        let h = 10 + self.rnd(300);
        let span_x = max1(outer.ur.x - outer.ll.x - w);
        let span_y = max1(outer.ur.y - outer.ll.y - h);
        let x = outer.ll.x + self.rnd(span_x);
        let y = outer.ll.y + self.rnd(span_y);
        IntBox::from_coords(x, y, x + w, y + h)
    }

    /// `octagon(b)`: the box's four sides with its four corners clipped by
    /// independent draws below 300, before normalisation.
    pub fn octagon(&mut self, b: &IntBox) -> (o: IntOctagon)
        requires
            i32::MIN <= b.ll.x - b.ur.y && b.ll.x - b.ur.y + 299 <= i32::MAX,
            i32::MIN <= b.ur.x - b.ll.y - 299 && b.ur.x - b.ll.y <= i32::MAX,
            i32::MIN <= b.ll.x + b.ll.y && b.ll.x + b.ll.y + 299 <= i32::MAX,
            i32::MIN <= b.ur.x + b.ur.y - 299 && b.ur.x + b.ur.y <= i32::MAX,
        ensures
            final(self).state == xorshift(xorshift(xorshift(xorshift(old(self).state)))),
            o.left_x == b.ll.x,
            o.bottom_y == b.ll.y,
            o.right_x == b.ur.x,
            o.top_y == b.ur.y,
            o.upper_left_diagonal_x == b.ll.x - b.ur.y + bounded(xorshift(old(self).state), 300),
            o.lower_right_diagonal_x == b.ur.x - b.ll.y - bounded(
                xorshift(xorshift(old(self).state)),
                300,
            ),
            o.lower_left_diagonal_x == b.ll.x + b.ll.y + bounded(
                xorshift(xorshift(xorshift(old(self).state))),
                300,
            ),
            o.upper_right_diagonal_x == b.ur.x + b.ur.y - bounded(final(self).state, 300),
    {
        let d1 = self.rnd(300);
        let d2 = self.rnd(300);
        let d3 = self.rnd(300);
        let d4 = self.rnd(300);
        IntOctagon {
            left_x: b.ll.x,
            bottom_y: b.ll.y,
            right_x: b.ur.x,
            top_y: b.ur.y,
            upper_left_diagonal_x: b.ll.x - b.ur.y + d1,
            lower_right_diagonal_x: b.ur.x - b.ll.y - d2,
            lower_left_diagonal_x: b.ll.x + b.ll.y + d3,
            upper_right_diagonal_x: b.ur.x + b.ur.y - d4,
        }
    }
}

/// `max(v, 1)`.
pub open spec fn span(v: int) -> int {
    if v < 1 { 1 } else { v }
}

fn max1(v: i32) -> (r: i32)
    ensures
        r == span(v as int),
{
    if v < 1 { 1 } else { v }
}

/// `rnd(bound)` on a 64-bit bound, truncated to `i32`.
pub fn rnd(rng: &mut XorShift64, bound: u64) -> (r: i32)
    requires
        bound != 0,
    ensures
        final(rng).state == xorshift(old(rng).state),
        r == (final(rng).state % bound) as i32,
{
    let v = rng.next();
    (v % bound) as i32
}

/// `rand_coord(rng, range)`: a value in `-range..=range`.
pub fn rand_coord(rng: &mut XorShift64, range: i32) -> (r: i32)
    requires
        0 <= range <= 0x3FFF_FFFF,
    ensures
        final(rng).state == xorshift(old(rng).state),
        r == (final(rng).state % ((2 * range + 1) as u64)) as i32 - range,
        -range <= r <= range,
{
    let m = (2 * range + 1) as u64;
    let v = rng.rnd_wide(m);
    assert((final(rng).state % m) < m);
    (v as i32) - range
}

/// `random_point(rng, range)`: x then y, each in `-range..=range`.
pub fn random_point(rng: &mut XorShift64, range: i32) -> (p: IntPoint)
    requires
        0 <= range <= 0x3FFF_FFFF,
    ensures
        final(rng).state == xorshift(xorshift(old(rng).state)),
        p.x == (xorshift(old(rng).state) % ((2 * range + 1) as u64)) as i32 - range,
        p.y == (final(rng).state % ((2 * range + 1) as u64)) as i32 - range,
{
    let x = rand_coord(rng, range);
    let y = rand_coord(rng, range);
    IntPoint { x, y }
}

/// `random_box(rng, range, min_size, max_size)`: width and height in
/// `min_size..=max_size`, then the lower-left corner in `-range..=range`.
pub fn random_box(rng: &mut XorShift64, range: i32, min_size: i32, max_size: i32) -> (b: IntBox)
    requires
        0 <= range <= 0x3FFF_FFFF,
        0 <= min_size <= max_size <= 0x3FFF_FFFF,
    ensures
        final(rng).state == xorshift(xorshift(xorshift(xorshift(old(rng).state)))),
        b.ur.x - b.ll.x == min_size + (xorshift(old(rng).state) % ((max_size - min_size
            + 1) as u64)) as i32,
        b.ur.y - b.ll.y == min_size + (xorshift(xorshift(old(rng).state)) % ((max_size
            - min_size + 1) as u64)) as i32,
        b.ll.x == (xorshift(xorshift(xorshift(old(rng).state))) % ((2 * range + 1) as u64)) as i32
            - range,
        b.ll.y == (final(rng).state % ((2 * range + 1) as u64)) as i32 - range,
{
    let m = (max_size - min_size + 1) as u64;
    let dw = rng.rnd_wide(m);
    assert(xorshift(old(rng).state) % m < m);
    let dh = rng.rnd_wide(m);
    assert(xorshift(xorshift(old(rng).state)) % m < m);
    let w = min_size + dw as i32;
    let h = min_size + dh as i32;
    let x = rand_coord(rng, range);
    let y = rand_coord(rng, range);
    IntBox::from_coords(x, y, x + w, y + h)
}

} // verus!
