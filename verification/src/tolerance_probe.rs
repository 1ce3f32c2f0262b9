//! The scripted tolerance stream of the via-optimizer probe: a 64-bit linear
//! congruential stream, the point pairs and tolerances it draws, and the
//! taxicab test each pair is put to.
use vstd::prelude::*;
use crate::geometry::IntPoint;
use crate::text::{decimal, push_char, push_int, push_str};

verus! {

/// The state the stream starts from.
pub open spec fn stream_seed() -> u64 {
    0x0005_DEEC_E66Du64
}

/// One step of the stream: multiply and add, modulo 2^64.
pub open spec fn lcg(s: u64) -> u64 {
    s.wrapping_mul(6_364_136_223_846_793_005).wrapping_add(1_442_695_040_888_963_407)
}

/// The state `k` steps after `s`.
pub open spec fn lcg_after(s: u64, k: nat) -> u64
    decreases k,
{
    if k == 0 {
        s
    } else {
        lcg(lcg_after(s, (k - 1) as nat))
    }
}

/// The value a step to state `s` answers: its top 31 bits.
pub open spec fn value(s: u64) -> int {
    (s >> 33u64) as int
}

/// A coordinate drawn from value `v`: `v % 4001 - 2000`.
pub open spec fn coord_of(v: int) -> int {
    v % 4001 - 2000
}

/// Whether `p1` exists and lies within taxicab distance `tolerance` of `p2`.
pub open spec fn within_spec(p1: Option<IntPoint>, p2: IntPoint, tolerance: int) -> bool {
    match p1 {
        Some(p) => abs(p.x - p2.x) + abs(p.y - p2.y) <= tolerance,
        None => false,
    }
}

/// `|v|`.
pub open spec fn abs(v: int) -> int {
    if v < 0 {
        -v
    } else {
        v
    }
}

/// `is_within_tolerance(p1, p2, tolerance)` on integral points: `false`
/// without a first point, else whether the two are within taxicab distance
/// `tolerance`.
pub fn within_tolerance(p1: Option<IntPoint>, p2: IntPoint, tolerance: i32) -> (r: bool)
    ensures
        r == within_spec(p1, p2, tolerance as int),
{
    match p1 {
        None => false,
        Some(p) => {
            let dx: i64 = if p.x < p2.x {
                p2.x as i64 - p.x as i64
            } else {
                p.x as i64 - p2.x as i64
            };
            let dy: i64 = if p.y < p2.y {
                p2.y as i64 - p.y as i64
            } else {
                p.y as i64 - p2.y as i64
            };
            dx + dy <= tolerance as i64
        },
    }
}

/// The stream's position.
pub struct ToleranceStream {
    pub state: u64,
}

impl ToleranceStream {
    /// The stream at its start.
    pub fn new() -> (r: ToleranceStream)
        ensures
            r.state == stream_seed(),
    {
        ToleranceStream { state: 0x0005_DEEC_E66D }
    }

    /// Steps the stream and answers the new state's top 31 bits.
    pub fn next(&mut self) -> (r: i32)
        ensures
            final(self).state == lcg(old(self).state),
            r == value(final(self).state),
            0 <= r,
    {
        self.state = self.state.wrapping_mul(6_364_136_223_846_793_005).wrapping_add(
            1_442_695_040_888_963_407,
        );
        let s = self.state;
        let v = s >> 33u64;
        assert(v < 0x8000_0000) by (bit_vector)
            requires
                v == s >> 33u64,
        ;
        v as i32
    }

    fn coord(&mut self) -> (r: i32)
        ensures
            final(self).state == lcg(old(self).state),
            r == coord_of(value(final(self).state)),
            -2000 <= r <= 2000,
    {
        self.next() % 4001 - 2000
    }
}

/// One scripted case: two points, a tolerance, and the answer.
#[derive(Clone, Copy, PartialEq, Eq, Debug)]
pub struct ToleranceCase {
    pub p1: IntPoint,
    pub p2: IntPoint,
    pub tolerance: i32,
    pub within: bool,
}

/// The random case drawn from the five values after state `s`: the two
/// points' coordinates in `-2000..=2000`, then a tolerance in `-20..=100`.
pub open spec fn random_case(s: u64) -> ToleranceCase {
    let p1 = IntPoint {
        x: coord_of(value(lcg_after(s, 1))) as i32,
        y: coord_of(value(lcg_after(s, 2))) as i32,
    };
    let p2 = IntPoint {
        x: coord_of(value(lcg_after(s, 3))) as i32,
        y: coord_of(value(lcg_after(s, 4))) as i32,
    };
    let tolerance = value(lcg_after(s, 5)) % 121 - 20;
    ToleranceCase { p1, p2, tolerance: tolerance as i32, within: within_spec(Some(p1), p2, tolerance) }
}

/// The boundary case `delta` (`-1..=1`) of round `i` (`0..256`), from a
/// first point `p1`: offsets `dx = i % 16` and `dy = tolerance - dx + delta`
/// with `tolerance = i / 16 + dx`, so the pair sits just inside, on, or just
/// outside the tolerance.
pub open spec fn boundary_case(i: int, delta: int, p1: IntPoint) -> ToleranceCase {
    let dx = i % 16;
    let tolerance = i / 16 + dx;
    let dy = tolerance - dx + delta;
    let p2 = IntPoint { x: (p1.x + dx) as i32, y: (p1.y + dy) as i32 };
    ToleranceCase {
        p1,
        p2,
        tolerance: tolerance as i32,
        within: within_spec(Some(p1), p2, tolerance),
    }
}

/// The first point of boundary round `i`, drawn from the two values after
/// the random cases and the rounds before it.
pub open spec fn boundary_point(i: int) -> IntPoint {
    let s = lcg_after(stream_seed(), (50000 + 2 * i) as nat);
    IntPoint { x: coord_of(value(lcg_after(s, 1))) as i32, y: coord_of(value(lcg_after(s, 2))) as i32 }
}

/// ` -> true` or ` -> false`.
pub open spec fn answer_text(b: bool) -> Seq<char> {
    seq![' ', '-', '>', ' '] + if b {
        seq!['t', 'r', 'u', 'e']
    } else {
        seq!['f', 'a', 'l', 's', 'e']
    }
}

/// `(x,y)`.
pub open spec fn pair_text(p: IntPoint) -> Seq<char> {
    seq!['('] + decimal(p.x as int) + seq![','] + decimal(p.y as int) + seq![')']
}

/// ` p1=(..) p2=(..) t=.. -> ..`: the part of a line after its round.
pub open spec fn case_tail(c: ToleranceCase) -> Seq<char> {
    seq![' ', 'p', '1', '='] + pair_text(c.p1) + seq![' ', 'p', '2', '='] + pair_text(c.p2) + seq![
        ' ',
        't',
        '=',
    ] + decimal(c.tolerance as int) + answer_text(c.within)
}

/// `tol i=<i> p1=(x1,y1) p2=(x2,y2) t=<t> -> <answer>`.
pub open spec fn random_line(i: int, c: ToleranceCase) -> Seq<char> {
    seq!['t', 'o', 'l', ' ', 'i', '='] + decimal(i) + case_tail(c)
}

/// `bnd i=<i> d=<delta> p1=(..) p2=(..) t=<t> -> <answer>`.
pub open spec fn boundary_line(i: int, delta: int, c: ToleranceCase) -> Seq<char> {
    seq!['b', 'n', 'd', ' ', 'i', '='] + decimal(i) + seq![' ', 'd', '='] + decimal(delta) + case_tail(
        c,
    )
}

/// The whole scripted transcript: 10000 random lines, then three boundary
/// lines for each of 256 rounds.
pub open spec fn transcript_line(k: int) -> Seq<char> {
    if k < 10000 {
        random_line(k, random_case(lcg_after(stream_seed(), (5 * k) as nat)))
    } else {
        let i = (k - 10000) / 3;
        let delta = (k - 10000) % 3 - 1;
        boundary_line(i, delta, boundary_case(i, delta, boundary_point(i)))
    }
}

fn push_pair(out: &mut String, p: IntPoint)
    ensures
        final(out)@ == old(out)@ + pair_text(p),
{
    push_char(out, '(');
    push_int(out, p.x as i64);
    push_char(out, ',');
    push_int(out, p.y as i64);
    push_char(out, ')');
    assert(final(out)@ =~= old(out)@ + pair_text(p));
}

fn push_tail(out: &mut String, c: &ToleranceCase)
    ensures
        final(out)@ == old(out)@ + case_tail(*c),
{
    proof {
        reveal_strlit(" p1=");
        reveal_strlit(" p2=");
        reveal_strlit(" t=");
        reveal_strlit(" -> true");
        reveal_strlit(" -> false");
    }
    push_str(out, " p1=");
    push_pair(out, c.p1);
    push_str(out, " p2=");
    push_pair(out, c.p2);
    push_str(out, " t=");
    push_int(out, c.tolerance as i64);
    if c.within {
        push_str(out, " -> true");
    } else {
        push_str(out, " -> false");
    }
    assert(final(out)@ =~= old(out)@ + case_tail(*c));
}

proof fn lemma_after_add(s: u64, k: nat, j: nat)
    ensures
        lcg_after(lcg_after(s, k), j) == lcg_after(s, k + j),
    decreases j,
{
    if j > 0 {
        lemma_after_add(s, k, (j - 1) as nat);
    }
}

fn boundary_row(r: i32, delta: i32, p1: IntPoint) -> (line: String)
    requires
        0 <= r < 256,
        -1 <= delta <= 1,
        p1 == boundary_point(r as int),
        -2000 <= p1.x <= 2000,
        -2000 <= p1.y <= 2000,
    ensures
        line@ == transcript_line(10000 + 3 * r + delta + 1),
{
    let dx = r % 16;
    let tolerance = r / 16 + dx;
    let dy = tolerance - dx + delta;
    let p2 = IntPoint { x: p1.x + dx, y: p1.y + dy };
    let within = within_tolerance(Some(p1), p2, tolerance);
    let c = ToleranceCase { p1, p2, tolerance, within };
    assert(c == boundary_case(r as int, delta as int, p1));
    let mut line = String::new();
    proof {
        reveal_strlit("bnd i=");
        reveal_strlit(" d=");
    }
    push_str(&mut line, "bnd i=");
    push_int(&mut line, r as i64);
    push_str(&mut line, " d=");
    push_int(&mut line, delta as i64);
    push_tail(&mut line, &c);
    assert(line@ =~= boundary_line(r as int, delta as int, c));
    let ghost k = 10000 + 3 * r + delta + 1;
    assert((k - 10000) / 3 == r && (k - 10000) % 3 - 1 == delta);
    line
}

/// `tolerance_triples()`: the scripted transcript, line by line; see
/// [`transcript_line`].
pub fn tolerance_lines() -> (lines: Vec<String>)
    ensures
        lines@.len() == 10768,
        forall|k: int| 0 <= k < 10768 ==> #[trigger] lines@[k]@ == transcript_line(k),
{
    let mut lines: Vec<String> = Vec::new();
    let mut stream = ToleranceStream::new();
    let mut i: i32 = 0;
    while i < 10000
        invariant
            0 <= i <= 10000,
            lines@.len() == i,
            stream.state == lcg_after(stream_seed(), (5 * i) as nat),
            forall|k: int| 0 <= k < i ==> #[trigger] lines@[k]@ == transcript_line(k),
        decreases 10000 - i,
    {
        let ghost s = stream.state;
        let x1 = stream.coord();
        let y1 = stream.coord();
        let x2 = stream.coord();
        let y2 = stream.coord();
        let tolerance = stream.next() % 121 - 20;
        let p1 = IntPoint { x: x1, y: y1 };
        let p2 = IntPoint { x: x2, y: y2 };
        let within = within_tolerance(Some(p1), p2, tolerance);
        let c = ToleranceCase { p1, p2, tolerance, within };
        proof {
            reveal_with_fuel(lcg_after, 6);
            lemma_after_add(stream_seed(), (5 * i) as nat, 5);
            assert(c == random_case(s));
        }
        let mut line = String::new();
        proof {
            reveal_strlit("tol i=");
        }
        push_str(&mut line, "tol i=");
        push_int(&mut line, i as i64);
        push_tail(&mut line, &c);
        assert(line@ =~= random_line(i as int, c));
        lines.push(line);
        i = i + 1;
    }
    let mut r: i32 = 0;
    while r < 256
        invariant
            0 <= r <= 256,
            lines@.len() == 10000 + 3 * r,
            stream.state == lcg_after(stream_seed(), (50000 + 2 * r) as nat),
            forall|k: int| 0 <= k < 10000 + 3 * r ==> #[trigger] lines@[k]@ == transcript_line(k),
        decreases 256 - r,
    {
        let ghost s = stream.state;
        let x1 = stream.coord();
        let y1 = stream.coord();
        let p1 = IntPoint { x: x1, y: y1 };
        proof {
            reveal_with_fuel(lcg_after, 3);
            lemma_after_add(stream_seed(), (50000 + 2 * r) as nat, 2);
            assert(p1 == boundary_point(r as int));
        }
        let mut delta: i32 = -1;
        while delta <= 1
            invariant
                -1 <= delta <= 2,
                0 <= r < 256,
                p1 == boundary_point(r as int),
                -2000 <= p1.x <= 2000,
                -2000 <= p1.y <= 2000,
                lines@.len() == 10000 + 3 * r + delta + 1,
                forall|k: int|
                    0 <= k < 10000 + 3 * r + delta + 1 ==> #[trigger] lines@[k]@ == transcript_line(k),
            decreases 2 - delta,
        {
            let line = boundary_row(r, delta, p1);
            lines.push(line);
            delta = delta + 1;
        }
        r = r + 1;
    }
    lines
}

/// Each boundary round puts its second pair exactly on the tolerance and
/// its third one unit past it; the first pair is one unit inside it, except
/// in the first sixteen rounds, where the tolerance equals the horizontal
/// offset and the pair lands one unit outside instead.
pub proof fn lemma_boundary_rounds(i: int, p1: IntPoint)
    requires
        0 <= i < 256,
        -2000 <= p1.x <= 2000,
        -2000 <= p1.y <= 2000,
    ensures
        boundary_case(i, 0, p1).within,
        !boundary_case(i, 1, p1).within,
        boundary_case(i, -1, p1).within == (i >= 16),
{
}

} // verus!
