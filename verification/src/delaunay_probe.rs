//! The triangulation probe's helpers: the point sets it triangulates, its
//! points, their rendering, and the rendering of an edge's optional object id.
use vstd::prelude::*;
use crate::geometry::{IntPoint, Point};
use crate::text::{count_of, decimal, digit_char, digits, lemma_count_additive, push_char, push_digits, push_int, push_str};
use crate::xorshift::{rnd, xorshift, XorShift64};

verus! {

/// `p(x, y)`: the integral point `(x, y)`.
pub fn p(x: i32, y: i32) -> (r: Point)
    ensures
        r == Point::Int(IntPoint { x, y }),
{
    Point::Int(IntPoint { x, y })
}

/// `fmt(point)`: `x,y` for an integral point, `rational` otherwise.
pub fn fmt(point: &Point) -> (out: String)
    ensures
        point matches Point::Int(q) ==> out@ == decimal(q.x as int) + seq![','] + decimal(
            q.y as int,
        ),
        point is Rational ==> out@ == "rational"@,
{
    let mut out = String::new();
    match point {
        Point::Int(q) => {
            push_int(&mut out, q.x as i64);
            push_char(&mut out, ',');
            push_int(&mut out, q.y as i64);
            assert(out@ =~= decimal(q.x as int) + seq![','] + decimal(q.y as int));
        },
        Point::Rational => {
            push_str(&mut out, "rational");
            assert(out@ =~= "rational"@);
        },
    }
    out
}

/// `obj_id(object)`: `none`, or the item id in decimal.
pub fn obj_id(object: Option<u32>) -> (out: String)
    ensures
        object is None ==> out@ == "none"@,
        object matches Some(id) ==> out@ == decimal(id as int),
{
    let mut out = String::new();
    match object {
        None => {
            push_str(&mut out, "none");
            assert(out@ =~= "none"@);
        },
        Some(id) => {
            push_digits(&mut out, id as u64);
            assert(out@ =~= decimal(id as int));
        },
    }
    out
}

/// A point drawn after `s`: `x`, then `y`, each a draw below `bound` less
/// `offset`. Answers the point and the state after it.
pub open spec fn drawn_corner(s: u64, bound: u64, offset: int) -> (IntPoint, u64) {
    let s1 = xorshift(s);
    let s2 = xorshift(s1);
    (
        IntPoint {
            x: ((s1 % bound) as i32 - offset) as i32,
            y: ((s2 % bound) as i32 - offset) as i32,
        },
        s2,
    )
}

/// `n` objects drawn one after another from `s`, each with one corner, or
/// two where `pairs`.
pub open spec fn drawn_objects(s: u64, n: nat, pairs: bool, bound: u64, offset: int) -> Seq<
    Seq<IntPoint>,
>
    decreases n,
{
    if n == 0 {
        Seq::empty()
    } else {
        let (a, s1) = drawn_corner(s, bound, offset);
        if pairs {
            let (b, s2) = drawn_corner(s1, bound, offset);
            seq![seq![a, b]] + drawn_objects(s2, (n - 1) as nat, pairs, bound, offset)
        } else {
            seq![seq![a]] + drawn_objects(s1, (n - 1) as nat, pairs, bound, offset)
        }
    }
}

proof fn lemma_drawn_objects_len(s: u64, n: nat, pairs: bool, bound: u64, offset: int)
    ensures
        drawn_objects(s, n, pairs, bound, offset).len() == n,
    decreases n,
{
    if n > 0 {
        let (a, s1) = drawn_corner(s, bound, offset);
        if pairs {
            let (b, s2) = drawn_corner(s1, bound, offset);
            lemma_drawn_objects_len(s2, (n - 1) as nat, pairs, bound, offset);
        } else {
            lemma_drawn_objects_len(s1, (n - 1) as nat, pairs, bound, offset);
        }
    }
}

/// The integral point `(x, y)`.
pub open spec fn at(x: int, y: int) -> IntPoint {
    IntPoint { x: x as i32, y: y as i32 }
}

/// The objects of the probe's mode `mode` (every mode but the circle of
/// mode 7), each as its corners: the unit square, three points on a line,
/// the square with one point three times over, `n` random segments, a 5 by 5
/// grid, `n` random points in a small square, or, for any other mode, `n`
/// random points in a large square. The stream starts on `seed` as it is.
pub open spec fn point_set(mode: i32, n: nat, seed: u64) -> Seq<Seq<IntPoint>> {
    if mode == 1 {
        seq![seq![at(0, 0)], seq![at(1000, 0)], seq![at(1000, 1000)], seq![at(0, 1000)]]
    } else if mode == 2 {
        seq![seq![at(0, 0)], seq![at(500, 500)], seq![at(1000, 1000)]]
    } else if mode == 3 {
        seq![
            seq![at(0, 0)],
            seq![at(1000, 0)],
            seq![at(1000, 1000)],
            seq![at(0, 1000)],
            seq![at(300, 400)],
            seq![at(300, 400)],
            seq![at(300, 400)],
        ]
    } else if mode == 4 {
        drawn_objects(seed, n, true, 200_000, 100_000)
    } else if mode == 5 {
        Seq::new(25, |k: int| seq![at((k / 5) * 1000, (k % 5) * 1000)])
    } else if mode == 6 {
        drawn_objects(seed, n, false, 40, 20)
    } else {
        drawn_objects(seed, n, false, 200_000, 100_000)
    }
}

fn draw_corner(rng: &mut XorShift64, bound: u64, offset: i32) -> (p: IntPoint)
    requires
        1 <= bound <= 200_000,
        0 <= offset <= 100_000,
    ensures
        (p, final(rng).state) == drawn_corner(old(rng).state, bound, offset as int),
{
    let x = rnd(rng, bound);
    assert(xorshift(old(rng).state) % bound < bound);
    let y = rnd(rng, bound);
    assert(final(rng).state % bound < bound);
    IntPoint { x: x - offset, y: y - offset }
}

fn draw_objects(rng: &mut XorShift64, n: usize, pairs: bool, bound: u64, offset: i32) -> (out: Vec<
    Vec<IntPoint>,
>)
    requires
        1 <= bound <= 200_000,
        0 <= offset <= 100_000,
    ensures
        out@.len() == n,
        forall|k: int|
            0 <= k < n ==> #[trigger] out@[k]@ == drawn_objects(
                old(rng).state,
                n as nat,
                pairs,
                bound,
                offset as int,
            )[k],
{
    let ghost target = drawn_objects(rng.state, n as nat, pairs, bound, offset as int);
    proof {
        lemma_drawn_objects_len(rng.state, n as nat, pairs, bound, offset as int);
        assert(target.subrange(0, n as int) =~= target);
    }
    let mut out: Vec<Vec<IntPoint>> = Vec::new();
    let mut k: usize = 0;
    while k < n
        invariant
            k <= n,
            1 <= bound <= 200_000,
            0 <= offset <= 100_000,
            target == drawn_objects(old(rng).state, n as nat, pairs, bound, offset as int),
            target.len() == n,
            out@.len() == k,
            forall|j: int| 0 <= j < k ==> #[trigger] out@[j]@ == target[j],
            target.subrange(k as int, n as int) == drawn_objects(
                rng.state,
                (n - k) as nat,
                pairs,
                bound,
                offset as int,
            ),
        decreases n - k,
    {
        let ghost rest = drawn_objects(rng.state, (n - k) as nat, pairs, bound, offset as int);
        proof {
            lemma_drawn_objects_len(rng.state, (n - k) as nat, pairs, bound, offset as int);
        }
        let a = draw_corner(rng, bound, offset);
        let mut corners: Vec<IntPoint> = Vec::new();
        corners.push(a);
        if pairs {
            let b = draw_corner(rng, bound, offset);
            corners.push(b);
        }
        assert(rest[0] == corners@);
        assert(rest.subrange(1, rest.len() as int) =~= drawn_objects(
            rng.state,
            (n - k - 1) as nat,
            pairs,
            bound,
            offset as int,
        ));
        assert(target.subrange(k + 1, n as int) =~= rest.subrange(1, rest.len() as int)) by {
            assert(target.subrange(k + 1, n as int) =~= target.subrange(k as int, n as int).subrange(
                1,
                (n - k) as int,
            ));
        }
        assert(target[k as int] == rest[0]) by {
            assert(target[k as int] == target.subrange(k as int, n as int)[0]);
        }
        out.push(corners);
        k = k + 1;
    }
    out
}

fn fixed(points: &[(i32, i32)]) -> (out: Vec<Vec<IntPoint>>)
    ensures
        out@.len() == points@.len(),
        forall|k: int|
            0 <= k < points@.len() ==> #[trigger] out@[k]@ == seq![
                IntPoint { x: points@[k].0, y: points@[k].1 },
            ],
{
    let mut out: Vec<Vec<IntPoint>> = Vec::new();
    let mut k: usize = 0;
    while k < points.len()
        invariant
            k <= points@.len(),
            out@.len() == k,
            forall|j: int|
                0 <= j < k ==> #[trigger] out@[j]@ == seq![
                    IntPoint { x: points@[j].0, y: points@[j].1 },
                ],
        decreases points.len() - k,
    {
        let mut one: Vec<IntPoint> = Vec::new();
        one.push(IntPoint { x: points[k].0, y: points[k].1 });
        assert(one@ =~= seq![IntPoint { x: points@[k as int].0, y: points@[k as int].1 }]);
        out.push(one);
        k = k + 1;
    }
    out
}

/// The fixed modes' shapes, whatever the draw count and seed: mode 1 is four
/// single points, the corners of an axis-parallel square; mode 2 is three
/// distinct single points on one line, the middle one between the others;
/// mode 3 is mode 1's square followed by one further point three times over.
pub proof fn lemma_fixed_modes(n: nat, seed: u64, m: nat, other_seed: u64)
    ensures
        point_set(1, n, seed) == point_set(1, m, other_seed),
        point_set(2, n, seed) == point_set(2, m, other_seed),
        point_set(3, n, seed) == point_set(3, m, other_seed),
        ({
            let p = point_set(2, n, seed);
            &&& p.len() == 3
            &&& forall|k: int| 0 <= k < 3 ==> #[trigger] p[k].len() == 1
            &&& (p[1][0].x - p[0][0].x) * (p[2][0].y - p[0][0].y) == (p[1][0].y - p[0][0].y) * (
            p[2][0].x - p[0][0].x)
            &&& p[0][0] != p[1][0] && p[1][0] != p[2][0] && p[0][0] != p[2][0]
            &&& (p[0][0].x <= p[1][0].x <= p[2][0].x || p[2][0].x <= p[1][0].x <= p[0][0].x)
            &&& (p[0][0].y <= p[1][0].y <= p[2][0].y || p[2][0].y <= p[1][0].y <= p[0][0].y)
        }),
        ({
            let q = point_set(1, n, seed);
            &&& q.len() == 4
            &&& forall|k: int| 0 <= k < 4 ==> #[trigger] q[k].len() == 1
            &&& q[0][0].y == q[1][0].y && q[1][0].x == q[2][0].x && q[2][0].y == q[3][0].y
                && q[3][0].x == q[0][0].x
            &&& q[1][0].x - q[0][0].x == q[2][0].y - q[1][0].y && q[1][0].x - q[0][0].x > 0
        }),
        ({
            let r = point_set(3, n, seed);
            &&& r.len() == 7
            &&& r.take(4) == point_set(1, n, seed)
            &&& r[4] == r[5] && r[5] == r[6] && r[4].len() == 1
        }),
{
    let p = point_set(2, n, seed);
    assert(p[0][0] == at(0, 0) && p[1][0] == at(500, 500) && p[2][0] == at(1000, 1000));
    let q = point_set(1, n, seed);
    assert(q[0][0] == at(0, 0) && q[1][0] == at(1000, 0) && q[2][0] == at(1000, 1000) && q[3][0] == at(
        0,
        1000,
    ));
    assert(point_set(3, n, seed).take(4) =~= q);
}

/// A point drawn with `bound` and `offset` lies in `[-offset, bound - offset)`
/// both ways.
pub open spec fn in_draw_range(p: IntPoint, bound: int, offset: int) -> bool {
    -offset <= p.x < bound - offset && -offset <= p.y < bound - offset
}

proof fn lemma_drawn_objects_shape(s: u64, n: nat, pairs: bool, bound: u64, offset: int)
    requires
        0 < bound <= 0x7FFF_FFFF,
        0 <= offset <= bound,
    ensures
        drawn_objects(s, n, pairs, bound, offset).len() == n,
        forall|k: int|
            0 <= k < n ==> {
                let o = #[trigger] drawn_objects(s, n, pairs, bound, offset)[k];
                &&& o.len() == if pairs {
                    2int
                } else {
                    1int
                }
                &&& forall|j: int| 0 <= j < o.len() ==> in_draw_range(#[trigger] o[j], bound as int, offset)
            },
    decreases n,
{
    if n > 0 {
        let s1 = xorshift(s);
        let s2 = xorshift(s1);
        assert((s1 % bound) < bound && (s2 % bound) < bound);
        let (a, t1) = drawn_corner(s, bound, offset);
        let (b, t2) = drawn_corner(t1, bound, offset);
        let u1 = xorshift(t1);
        let u2 = xorshift(u1);
        assert((u1 % bound) < bound && (u2 % bound) < bound);
        let whole = drawn_objects(s, n, pairs, bound, offset);
        if pairs {
            lemma_drawn_objects_shape(t2, (n - 1) as nat, pairs, bound, offset);
            let rest = drawn_objects(t2, (n - 1) as nat, pairs, bound, offset);
            assert forall|k: int| 1 <= k < n implies whole[k] == rest[k - 1] by {}
            assert(whole[0] == seq![a, b]);
        } else {
            lemma_drawn_objects_shape(t1, (n - 1) as nat, pairs, bound, offset);
            let rest = drawn_objects(t1, (n - 1) as nat, pairs, bound, offset);
            assert forall|k: int| 1 <= k < n implies whole[k] == rest[k - 1] by {}
            assert(whole[0] == seq![a]);
        }
    }
}

/// The drawn modes, with `n` draws: `n` segments of two points each in
/// `[-100000, 100000)` for mode 4; `n` single points in `[-20, 20)` for mode
/// 6; `n` single points in `[-100000, 100000)` for every mode above 7 or
/// below 1; and for mode 5 the 5 by 5 grid of single points 1000 apart from
/// the origin, each point once.
pub proof fn lemma_drawn_modes(mode: i32, n: nat, seed: u64)
    ensures
        mode == 4 ==> point_set(mode, n, seed).len() == n && forall|k: int|
            0 <= k < n ==> {
                let o = #[trigger] point_set(mode, n, seed)[k];
                o.len() == 2 && in_draw_range(o[0], 200_000, 100_000) && in_draw_range(o[1], 200_000, 100_000)
            },
        mode == 6 ==> point_set(mode, n, seed).len() == n && forall|k: int|
            0 <= k < n ==> {
                let o = #[trigger] point_set(mode, n, seed)[k];
                o.len() == 1 && in_draw_range(o[0], 40, 20)
            },
        (mode < 1 || mode > 7) ==> point_set(mode, n, seed).len() == n && forall|k: int|
            0 <= k < n ==> {
                let o = #[trigger] point_set(mode, n, seed)[k];
                o.len() == 1 && in_draw_range(o[0], 200_000, 100_000)
            },
        mode == 5 ==> {
            let g = point_set(mode, n, seed);
            &&& g.len() == 25
            &&& forall|k: int| 0 <= k < 25 ==> (#[trigger] g[k]).len() == 1
            &&& forall|x: int, y: int|
                0 <= x < 5 && 0 <= y < 5 ==> #[trigger] g[5 * x + y][0] == at(1000 * x, 1000 * y)
            &&& forall|i: int, j: int| 0 <= i < j < 25 ==> #[trigger] g[i][0] != #[trigger] g[j][0]
        },
{
    lemma_drawn_objects_shape(seed, n, true, 200_000, 100_000);
    lemma_drawn_objects_shape(seed, n, false, 40, 20);
    lemma_drawn_objects_shape(seed, n, false, 200_000, 100_000);
    if mode == 4 {
        assert forall|k: int| 0 <= k < n implies {
            let o = #[trigger] point_set(mode, n, seed)[k];
            o.len() == 2 && in_draw_range(o[0], 200_000, 100_000) && in_draw_range(o[1], 200_000, 100_000)
        } by {
            let o = drawn_objects(seed, n, true, 200_000, 100_000)[k];
            assert(in_draw_range(o[0], 200_000, 100_000));
            assert(in_draw_range(o[1], 200_000, 100_000));
        }
    }
    if mode == 6 {
        assert forall|k: int| 0 <= k < n implies {
            let o = #[trigger] point_set(mode, n, seed)[k];
            o.len() == 1 && in_draw_range(o[0], 40, 20)
        } by {
            let o = drawn_objects(seed, n, false, 40, 20)[k];
            assert(in_draw_range(o[0], 40, 20));
        }
    }
    if mode < 1 || mode > 7 {
        assert forall|k: int| 0 <= k < n implies {
            let o = #[trigger] point_set(mode, n, seed)[k];
            o.len() == 1 && in_draw_range(o[0], 200_000, 100_000)
        } by {
            let o = drawn_objects(seed, n, false, 200_000, 100_000)[k];
            assert(in_draw_range(o[0], 200_000, 100_000));
        }
    }
    if mode == 5 {
        let g = point_set(mode, n, seed);
        assert forall|x: int, y: int| 0 <= x < 5 && 0 <= y < 5 implies #[trigger] g[5 * x + y][0] == at(
            1000 * x,
            1000 * y,
        ) by {
            let k = 5 * x + y;
            assert(k / 5 == x && k % 5 == y) by (nonlinear_arith)
                requires
                    k == 5 * x + y,
                    0 <= y < 5,
            ;
        }
        assert forall|i: int, j: int| 0 <= i < j < 25 implies #[trigger] g[i][0] != #[trigger] g[j][0] by {
            assert(g[i][0] == at((i / 5) * 1000, (i % 5) * 1000));
            assert(g[j][0] == at((j / 5) * 1000, (j % 5) * 1000));
            assert(i / 5 != j / 5 || i % 5 != j % 5) by (nonlinear_arith)
                requires
                    0 <= i < j < 25,
            ;
        }
    }
}

/// The number of points over all objects.
pub open spec fn total_points(objects: Seq<Vec<IntPoint>>) -> int
    decreases objects.len(),
{
    if objects.len() == 0 {
        0
    } else {
        total_points(objects.drop_last()) + objects.last()@.len()
    }
}

proof fn lemma_count_push(s: Seq<char>, x: char, c: char)
    ensures
        count_of(s.push(x), c) == count_of(s, c) + if x == c { 1int } else { 0int },
{
    assert(s.push(x).drop_last() =~= s);
}

proof fn lemma_digits_plain(n: nat)
    ensures
        count_of(digits(n), '@') == 0,
        count_of(digits(n), ' ') == 0,
    decreases n,
{
    let e = Seq::<char>::empty();
    if n < 10 {
        let d = digit_char(n as int);
        lemma_count_push(e, d, '@');
        lemma_count_push(e, d, ' ');
        assert(e.push(d) =~= seq![d]);
    } else {
        lemma_digits_plain(n / 10);
        lemma_count_push(digits(n / 10), digit_char((n % 10) as int), '@');
        lemma_count_push(digits(n / 10), digit_char((n % 10) as int), ' ');
    }
}

proof fn lemma_decimal_plain(i: int)
    ensures
        count_of(decimal(i), '@') == 0,
        count_of(decimal(i), ' ') == 0,
{
    if i < 0 {
        lemma_digits_plain((-i) as nat);
        lemma_count_additive(seq!['-'], digits((-i) as nat), '@');
        lemma_count_additive(seq!['-'], digits((-i) as nat), ' ');
        lemma_count_push(Seq::<char>::empty(), '-', '@');
        lemma_count_push(Seq::<char>::empty(), '-', ' ');
        assert(Seq::<char>::empty().push('-') =~= seq!['-']);
    } else {
        lemma_digits_plain(i as nat);
    }
}

proof fn lemma_object_inputs_marks(points: Seq<IntPoint>, id: int)
    ensures
        count_of(object_inputs(points, id), '@') == points.len(),
        count_of(object_inputs(points, id), ' ') == points.len(),
    decreases points.len(),
{
    if points.len() > 0 {
        let q = points.last();
        lemma_object_inputs_marks(points.drop_last(), id);
        lemma_decimal_plain(id);
        lemma_decimal_plain(q.x as int);
        lemma_decimal_plain(q.y as int);
        let e = Seq::<char>::empty();
        lemma_count_push(e, ' ', '@');
        lemma_count_push(e, ' ', ' ');
        lemma_count_push(e, '@', '@');
        lemma_count_push(e, '@', ' ');
        lemma_count_push(e, ',', '@');
        lemma_count_push(e, ',', ' ');
        assert(e.push(' ') =~= seq![' ']);
        assert(e.push('@') =~= seq!['@']);
        assert(e.push(',') =~= seq![',']);
        let a0 = object_inputs(points.drop_last(), id);
        let a1 = a0 + seq![' '];
        let a2 = a1 + decimal(id);
        let a3 = a2 + seq!['@'];
        let a4 = a3 + decimal(q.x as int);
        let a5 = a4 + seq![','];
        let a6 = a5 + decimal(q.y as int);
        lemma_count_additive(a0, seq![' '], '@');
        lemma_count_additive(a1, decimal(id), '@');
        lemma_count_additive(a2, seq!['@'], '@');
        lemma_count_additive(a3, decimal(q.x as int), '@');
        lemma_count_additive(a4, seq![','], '@');
        lemma_count_additive(a5, decimal(q.y as int), '@');
        lemma_count_additive(a0, seq![' '], ' ');
        lemma_count_additive(a1, decimal(id), ' ');
        lemma_count_additive(a2, seq!['@'], ' ');
        lemma_count_additive(a3, decimal(q.x as int), ' ');
        lemma_count_additive(a4, seq![','], ' ');
        lemma_count_additive(a5, decimal(q.y as int), ' ');
    }
}

/// The input line names every point once: it opens with `in:` and holds one
/// `@` and one space for each point of each object, and nothing but the
/// objects' lines is added to it object by object.
pub proof fn lemma_inputs_cover_points(objects: Seq<Vec<IntPoint>>)
    ensures
        inputs_text(objects).len() >= 3,
        inputs_text(objects).take(3) == "in:"@,
        count_of(inputs_text(objects), '@') == total_points(objects),
        count_of(inputs_text(objects), ' ') == total_points(objects),
    decreases objects.len(),
{
    reveal_strlit("in:");
    if objects.len() == 0 {
        let e = Seq::<char>::empty();
        lemma_count_push(e, 'i', '@');
        lemma_count_push(e, 'i', ' ');
        lemma_count_push(e.push('i'), 'n', '@');
        lemma_count_push(e.push('i'), 'n', ' ');
        lemma_count_push(e.push('i').push('n'), ':', '@');
        lemma_count_push(e.push('i').push('n'), ':', ' ');
        assert(e.push('i').push('n').push(':') =~= "in:"@);
    } else {
        lemma_inputs_cover_points(objects.drop_last());
        let front = inputs_text(objects.drop_last());
        let tail = object_inputs(objects.last()@, objects.len() as int);
        lemma_object_inputs_marks(objects.last()@, objects.len() as int);
        lemma_count_additive(front, tail, '@');
        lemma_count_additive(front, tail, ' ');
        assert((front + tail).take(3) =~= front.take(3));
    }
}

/// The objects of mode `mode` with `n` draws where the mode draws, from a
/// stream started on `seed`; see [`point_set`]. Mode 7 places its points on a
/// circle with floating-point trigonometry and is not drawn here.
pub fn objects_of(mode: i32, n: usize, seed: u64) -> (out: Vec<Vec<IntPoint>>)
    requires
        mode != 7,
    ensures
        out@.len() == point_set(mode, n as nat, seed).len(),
        forall|k: int|
            0 <= k < out@.len() ==> #[trigger] out@[k]@ == point_set(mode, n as nat, seed)[k],
{
    let mut rng = XorShift64::from_state(seed);
    proof {
        lemma_drawn_objects_len(seed, n as nat, true, 200_000, 100_000);
        lemma_drawn_objects_len(seed, n as nat, false, 40, 20);
        lemma_drawn_objects_len(seed, n as nat, false, 200_000, 100_000);
    }
    if mode == 1 {
        let out = fixed(&[(0, 0), (1000, 0), (1000, 1000), (0, 1000)]);
        assert forall|k: int| 0 <= k < out@.len() implies #[trigger] out@[k]@ == point_set(
            mode,
            n as nat,
            seed,
        )[k] by {
            assert(0 <= k < 4);
        }
        out
    } else if mode == 2 {
        fixed(&[(0, 0), (500, 500), (1000, 1000)])
    } else if mode == 3 {
        fixed(&[(0, 0), (1000, 0), (1000, 1000), (0, 1000), (300, 400), (300, 400), (300, 400)])
    } else if mode == 4 {
        draw_objects(&mut rng, n, true, 200_000, 100_000)
    } else if mode == 5 {
        let mut out: Vec<Vec<IntPoint>> = Vec::new();
        let mut x: i32 = 0;
        while x < 5
            invariant
                0 <= x <= 5,
                out@.len() == 5 * x,
                forall|j: int|
                    0 <= j < out@.len() ==> #[trigger] out@[j]@ == seq![
                        at((j / 5) * 1000, (j % 5) * 1000),
                    ],
            decreases 5 - x,
        {
            let mut y: i32 = 0;
            while y < 5
                invariant
                    0 <= x < 5,
                    0 <= y <= 5,
                    out@.len() == 5 * x + y,
                    forall|j: int|
                        0 <= j < out@.len() ==> #[trigger] out@[j]@ == seq![
                            at((j / 5) * 1000, (j % 5) * 1000),
                        ],
                decreases 5 - y,
            {
                let mut one: Vec<IntPoint> = Vec::new();
                one.push(IntPoint { x: x * 1000, y: y * 1000 });
                let ghost j = 5 * x + y;
                assert(j / 5 == x && j % 5 == y);
                assert(one@ =~= seq![at((j / 5) * 1000, (j % 5) * 1000)]);
                out.push(one);
                y = y + 1;
            }
            x = x + 1;
        }
        out
    } else if mode == 6 {
        draw_objects(&mut rng, n, false, 40, 20)
    } else {
        draw_objects(&mut rng, n, false, 200_000, 100_000)
    }
}

/// ` id@x,y` for every corner of one object.
pub open spec fn object_inputs(points: Seq<IntPoint>, id: int) -> Seq<char>
    decreases points.len(),
{
    if points.len() == 0 {
        Seq::empty()
    } else {
        let q = points.last();
        object_inputs(points.drop_last(), id) + seq![' '] + decimal(id) + seq!['@'] + decimal(
            q.x as int,
        ) + seq![','] + decimal(q.y as int)
    }
}

/// The probe's `in:` line: every corner of every object as ` id@x,y`, the
/// objects numbered from 1 in order.
pub open spec fn inputs_text(objects: Seq<Vec<IntPoint>>) -> Seq<char>
    decreases objects.len(),
{
    if objects.len() == 0 {
        "in:"@
    } else {
        inputs_text(objects.drop_last()) + object_inputs(objects.last()@, objects.len() as int)
    }
}

/// `in:` and the corners of `objects`; see [`inputs_text`].
pub fn inputs_line(objects: &Vec<Vec<IntPoint>>) -> (out: String)
    requires
        objects@.len() < u32::MAX,
    ensures
        out@ == inputs_text(objects@),
{
    let mut out = String::new();
    push_str(&mut out, "in:");
    let mut k: usize = 0;
    while k < objects.len()
        invariant
            k <= objects@.len() < u32::MAX,
            out@ == inputs_text(objects@.take(k as int)),
        decreases objects.len() - k,
    {
        let points = &objects[k];
        let id = (k + 1) as u64;
        assert(objects@.take(k + 1).drop_last() =~= objects@.take(k as int));
        let ghost head = out@;
        let mut m: usize = 0;
        while m < points.len()
            invariant
                m <= points@.len(),
                id == k + 1,
                out@ == head + object_inputs(points@.take(m as int), id as int),
            decreases points.len() - m,
        {
            assert(points@.take(m + 1).drop_last() =~= points@.take(m as int));
            let q = points[m];
            push_char(&mut out, ' ');
            push_digits(&mut out, id);
            push_char(&mut out, '@');
            push_int(&mut out, q.x as i64);
            push_char(&mut out, ',');
            push_int(&mut out, q.y as i64);
            m = m + 1;
            assert(out@ =~= head + object_inputs(points@.take(m as int), id as int));
        }
        assert(points@.take(points@.len() as int) =~= points@);
        k = k + 1;
        assert(out@ =~= inputs_text(objects@.take(k as int)));
    }
    assert(objects@.take(objects@.len() as int) =~= objects@);
    out
}

} // verus!
