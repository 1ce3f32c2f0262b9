//! `java.util.Random`'s 48-bit linear congruential generator, its bounded
//! `nextInt`, `nextLong`, and the `Collections.shuffle` permutation built on it.
use vstd::prelude::*;

verus! {

/// The multiplier of the generator.
pub open spec fn multiplier() -> int {
    0x5DEECE66D
}

/// The modulus of the generator, `2^48`.
pub open spec fn modulus() -> int {
    0x1_0000_0000_0000
}

/// One step of the generator on a 48-bit state.
pub open spec fn lcg_step(s: int) -> int {
    (s * multiplier() + 0xB) % modulus()
}

/// The state `new(seed)` starts from: the seed scrambled with the multiplier,
/// keeping the low 48 bits.
pub open spec fn initial_state(seed: i64) -> int {
    ((seed ^ 0x5DEECE66Di64) & 0xFFFF_FFFF_FFFFi64) as int
}

/// The top 31 bits of a 48-bit state: what `next(31)` answers.
pub open spec fn top31(s: int) -> int {
    s / 0x20000
}

/// Whether `bound` is zero or a power of two (`bound & (bound - 1) == 0`).
pub open spec fn is_power_of_two_or_zero(bound: i32) -> bool {
    bound & ((bound - 1) as i32) == 0
}

/// Whether the draw `u` is kept for `bound`: `u - u % bound + (bound - 1)` does
/// not wrap past `i32::MAX`.
pub open spec fn accepts(u: int, bound: int) -> bool {
    u - u % bound + (bound - 1) <= 0x7FFF_FFFF
}

/// The rejection loop of `nextInt`, run for at most `fuel` further draws from
/// state `s` whose draw is `top31(s)`: the answer and the state it leaves.
pub open spec fn rejection(s: int, bound: int, fuel: nat) -> Option<(int, int)>
    decreases fuel,
{
    let u = top31(s);
    if accepts(u, bound) {
        Some((u % bound, s))
    } else if fuel == 0 {
        None
    } else {
        rejection(lcg_step(s), bound, (fuel - 1) as nat)
    }
}

/// `nextInt(bound)` from state `s`, allowing `fuel` rejected draws.
pub open spec fn next_int_within(s: int, bound: i32, fuel: nat) -> Option<(int, int)> {
    let s1 = lcg_step(s);
    if is_power_of_two_or_zero(bound) {
        Some(((bound as int * top31(s1)) / 0x8000_0000, s1))
    } else {
        rejection(s1, bound as int, fuel)
    }
}

/// `nextInt(bound)` from state `s` returns: some finite number of draws ends
/// the rejection loop.
pub open spec fn next_int_returns(s: int, bound: i32) -> bool {
    exists|fuel: nat| next_int_within(s, bound, fuel) is Some
}

/// The answer of `nextInt(bound)` from state `s` and the state it leaves,
/// where it returns.
pub open spec fn next_int_outcome(s: int, bound: i32) -> (int, int) {
    next_int_within(s, bound, choose|fuel: nat| next_int_within(s, bound, fuel) is Some)->0
}

/// Whether the shuffle of a list of `i` elements from state `s` returns: each
/// of its `nextInt` calls does.
pub open spec fn shuffle_returns(s: int, i: nat) -> bool
    decreases i,
{
    if i <= 1 {
        true
    } else {
        &&& i <= 0x7FFF_FFFF
        &&& next_int_returns(s, i as i32)
        &&& shuffle_returns(next_int_outcome(s, i as i32).1, (i - 1) as nat)
    }
}

/// `Collections.shuffle(list, rnd)` from state `s`, over the first `i` elements:
/// from the end, each position swaps with `nextInt(i)`.
pub open spec fn shuffled(list: Seq<usize>, s: int, i: nat) -> Seq<usize>
    decreases i,
{
    if i <= 1 || i > list.len() {
        list
    } else {
        let (j, s2) = next_int_outcome(s, i as i32);
        let swapped = list.update(i - 1, list[j]).update(j, list[i - 1]);
        shuffled(swapped, s2, (i - 1) as nat)
    }
}

/// More fuel does not change an answer that was already reached.
proof fn lemma_rejection_monotone(s: int, bound: int, f: nat, g: nat)
    requires
        rejection(s, bound, f) is Some,
        f <= g,
    ensures
        rejection(s, bound, g) == rejection(s, bound, f),
    decreases f,
{
    if !accepts(top31(s), bound) && f > 0 {
        lemma_rejection_monotone(lcg_step(s), bound, (f - 1) as nat, (g - 1) as nat);
    }
}

proof fn lemma_outcome(s: int, bound: i32, f: nat)
    requires
        next_int_within(s, bound, f) is Some,
    ensures
        next_int_returns(s, bound),
        next_int_within(s, bound, f) == Some(next_int_outcome(s, bound)),
{
    let g = choose|fuel: nat| next_int_within(s, bound, fuel) is Some;
    if !is_power_of_two_or_zero(bound) {
        if f <= g {
            lemma_rejection_monotone(lcg_step(s), bound as int, f, g);
        } else {
            lemma_rejection_monotone(lcg_step(s), bound as int, g, f);
        }
    }
}

/// A `java.util.Random` generator.
pub struct JavaRandom {
    seed: i64,
}

impl JavaRandom {
    /// The generator's 48-bit state.
    pub closed spec fn state(&self) -> int {
        self.seed as int
    }

    /// The state is a 48-bit value.
    pub closed spec fn wf(&self) -> bool {
        0 <= self.seed < 0x1_0000_0000_0000
    }

    /// `new Random(seed)`.
    pub fn new(seed: i64) -> (r: JavaRandom)
        ensures
            r.wf(),
            r.state() == initial_state(seed),
    {
        let s = (seed ^ 0x5DEECE66Di64) & 0xFFFF_FFFF_FFFFi64;
        assert(0 <= s < 0x1_0000_0000_0000i64) by (bit_vector)
            requires
                s == (seed ^ 0x5DEECE66Di64) & 0xFFFF_FFFF_FFFFi64,
        ;
        JavaRandom { seed: s }
    }

    fn step(&mut self)
        requires
            old(self).wf(),
        ensures
            final(self).wf(),
            final(self).state() == lcg_step(old(self).state()),
    {
        let t: u128 = (self.seed as u128) * 0x5DEECE66Du128 + 0xBu128;
        self.seed = (t % 0x1_0000_0000_0000u128) as i64;
    }

    /// `next(bits)`: advances the state and answers its top `bits` bits,
    /// truncated to 32 bits.
    pub fn next(&mut self, bits: u32) -> (r: i32)
        requires
            old(self).wf(),
            bits <= 48,
        ensures
            final(self).wf(),
            final(self).state() == lcg_step(old(self).state()),
            r == ((final(self).state() as i64) >> ((48 - bits) as i64)) as i32,
    {
        self.step();
        (self.seed >> ((48 - bits) as i64)) as i32
    }

    fn next31(&mut self) -> (r: i32)
        requires
            old(self).wf(),
        ensures
            final(self).wf(),
            final(self).state() == lcg_step(old(self).state()),
            r as int == top31(final(self).state()),
            0 <= r,
    {
        self.step();
        let s = self.seed;
        assert(s >> 17i64 == s / 0x20000) by (bit_vector)
            requires
                0 <= s < 0x1_0000_0000_0000i64,
        ;
        assert(0 <= s >> 17i64 < 0x8000_0000i64) by (bit_vector)
            requires
                0 <= s < 0x1_0000_0000_0000i64,
        ;
        (s >> 17i64) as i32
    }

    /// `nextLong()`: two 32-bit draws, the second sign-extended before the
    /// wrapping addition.
    pub fn next_long(&mut self) -> (r: i64)
        requires
            old(self).wf(),
        ensures
            final(self).wf(),
            final(self).state() == lcg_step(lcg_step(old(self).state())),
            r == ((((lcg_step(old(self).state()) as i64) >> 16i64) as i32) as int * 0x1_0000_0000
                + (((final(self).state() as i64) >> 16i64) as i32) as int) as i64,
    {
        let high = self.next(32);
        let low = self.next(32);
        ((high as i128) * 0x1_0000_0000i128 + (low as i128)) as i64
    }

    /// The rejection loop of `nextInt`, starting from the draw `u` of the
    /// current state.
    fn reject_until_kept(&mut self, u0: i32, bound: i32, Ghost(fuel0): Ghost<nat>) -> (r: i32)
        requires
            old(self).wf(),
            bound > 0,
            u0 as int == top31(old(self).state()),
            0 <= u0,
            rejection(old(self).state(), bound as int, fuel0) is Some,
        ensures
            final(self).wf(),
            Some((r as int, final(self).state())) == rejection(
                old(self).state(),
                bound as int,
                fuel0,
            ),
    {
        let ghost target = rejection(self.state(), bound as int, fuel0);
        let m = bound - 1;
        let mut u = u0;
        let mut r: i32;
        let ghost mut fuel: nat = fuel0;
        loop
            invariant
                self.wf(),
                bound > 0,
                m == bound - 1,
                u as int == top31(self.state()),
                0 <= u,
                rejection(self.state(), bound as int, fuel) == target,
                target == rejection(old(self).state(), bound as int, fuel0),
                target is Some,
            decreases fuel,
        {
            r = u % bound;
            let ghost st = self.state();
            assert(r as int == u as int % bound as int);
            if u - r <= 0x7FFF_FFFF - m {
                assert(accepts(u as int, bound as int));
                assert(rejection(st, bound as int, fuel) == Some((r as int, st)));
                return r;
            }
            assert(!accepts(u as int, bound as int));
            assert(fuel > 0);
            assert(rejection(st, bound as int, fuel) == rejection(
                lcg_step(st),
                bound as int,
                (fuel - 1) as nat,
            ));
            u = self.next31();
            proof {
                fuel = (fuel - 1) as nat;
            }
        }
    }

    /// `nextInt(bound)` for `bound >= 0`: a multiply-and-shift draw for a power
    /// of two (and for zero), the rejection loop otherwise.
    pub fn next_int(&mut self, bound: i32) -> (r: i32)
        requires
            old(self).wf(),
            bound >= 0,
            next_int_returns(old(self).state(), bound),
        ensures
            final(self).wf(),
            (r as int, final(self).state()) == next_int_outcome(old(self).state(), bound),
            bound > 0 ==> 0 <= r < bound,
            bound == 0 ==> r == 0,
    {
        let ghost s0 = self.state();
        let ghost f = choose|fuel: nat| next_int_within(s0, bound, fuel) is Some;
        proof {
            lemma_outcome(s0, bound, f);
        }
        let r = self.next31();
        let m = bound - 1;
        if bound & m == 0 {
            scaled_draw(bound, r)
        } else {
            assert(bound != 0) by (bit_vector)
                requires
                    bound & m != 0,
                    m == bound - 1,
            ;
            let kept = self.reject_until_kept(r, bound, Ghost(f));
            proof {
                lemma_rejection_bound(lcg_step(s0), bound as int, f);
            }
            kept
        }
    }
}

proof fn lemma_rejection_bound(s: int, bound: int, f: nat)
    requires
        bound > 0,
        rejection(s, bound, f) is Some,
    ensures
        ({
            let (r, _) = rejection(s, bound, f)->0;
            0 <= r < bound
        }),
    decreases f,
{
    if !accepts(top31(s), bound) && f > 0 {
        lemma_rejection_bound(lcg_step(s), bound, (f - 1) as nat);
    }
}

/// `(bound * r) >> 31` for a power-of-two bound.
fn scaled_draw(bound: i32, r: i32) -> (out: i32)
    requires
        0 <= bound,
        0 <= r,
    ensures
        out as int == (bound as int * r as int) / 0x8000_0000,
        bound > 0 ==> 0 <= out < bound,
        bound == 0 ==> out == 0,
{
    assert(0 <= bound as int * r as int <= 0x7FFF_FFFF * 0x7FFF_FFFF) by (nonlinear_arith)
        requires
            0 <= bound <= 0x7FFF_FFFF,
            0 <= r <= 0x7FFF_FFFF,
    ;
    let wide: i64 = (bound as i64) * (r as i64);
    assert(0 <= wide <= 0x7FFF_FFFF * 0x7FFF_FFFF) by (nonlinear_arith)
        requires
            wide == bound as int * r as int,
            0 <= bound <= 0x7FFF_FFFF,
            0 <= r <= 0x7FFF_FFFF,
    ;
    assert(wide >> 31i64 == wide / 0x8000_0000) by (bit_vector)
        requires
            wide >= 0,
    ;
    assert(wide / 0x8000_0000 < 0x8000_0000);
    if bound > 0 {
        assert(wide / 0x8000_0000 < bound as int) by (nonlinear_arith)
            requires
                wide == bound as int * r as int,
                bound > 0,
                0 <= r < 0x8000_0000,
        ;
    }
    (wide >> 31i64) as i32
}

/// `permutation(n)`: the order `Collections.shuffle` with `new Random(99)`
/// puts `0..n` in.
pub fn permutation(n: usize) -> (list: Vec<usize>)
    requires
        shuffle_returns(initial_state(99), n as nat),
    ensures
        list@ == shuffled(Seq::new(n as nat, |k: int| k as usize), initial_state(99), n as nat),
        list@.len() == n,
        forall|k: int| 0 <= k < n ==> list@[k] < n,
        forall|a: int, b: int| 0 <= a < b < n ==> list@[a] != list@[b],
{
    let mut list: Vec<usize> = Vec::new();
    let mut k: usize = 0;
    while k < n
        invariant
            k <= n,
            list@ == Seq::new(k as nat, |q: int| q as usize),
        decreases n - k,
    {
        list.push(k);
        k = k + 1;
    }
    let mut rng = JavaRandom::new(99);
    let mut i = list.len();
    let ghost whole = shuffled(list@, rng.state(), i as nat);
    while i > 1
        invariant
            rng.wf(),
            i <= n,
            list@.len() == n,
            shuffle_returns(rng.state(), i as nat),
            shuffled(list@, rng.state(), i as nat) == whole,
            forall|q: int| 0 <= q < n ==> list@[q] < n,
            forall|a: int, b: int| 0 <= a < b < n ==> list@[a] != list@[b],
        decreases i,
    {
        let ghost before = list@;
        let ghost s = rng.state();
        let j = rng.next_int(i as i32) as usize;
        let tmp = list[i - 1];
        let other = list[j];
        list.set(i - 1, other);
        list.set(j, tmp);
        assert(list@ == before.update(i - 1, before[j as int]).update(j as int, before[i - 1]));
        assert forall|a: int, b: int| 0 <= a < b < n implies list@[a] != list@[b] by {
            let pa = if a == j { i - 1 } else if a == i - 1 { j as int } else { a };
            let pb = if b == j { i - 1 } else if b == i - 1 { j as int } else { b };
            assert(list@[a] == before[pa]);
            assert(list@[b] == before[pb]);
        }
        i = i - 1;
    }
    list
}

/// What `nextInt(bound)` answers, where it returns, lies in `0..bound`.
proof fn lemma_outcome_in_range(s: int, bound: i32)
    requires
        bound > 0,
        next_int_returns(s, bound),
    ensures
        0 <= next_int_outcome(s, bound).0 < bound,
{
    let f = choose|fuel: nat| next_int_within(s, bound, fuel) is Some;
    lemma_outcome(s, bound, f);
    let s1 = lcg_step(s);
    if is_power_of_two_or_zero(bound) {
        let t = top31(s1);
        assert(0 <= s1 < modulus());
        assert(0 <= t < 0x8000_0000);
        assert(0 <= (bound as int * t) / 0x8000_0000 < bound) by (nonlinear_arith)
            requires
                0 <= t < 0x8000_0000,
                bound > 0,
        ;
    } else {
        lemma_rejection_bound(s1, bound as int, f);
    }
}

/// Swapping two places keeps a list's elements, each as often.
proof fn lemma_swap_multiset(list: Seq<usize>, a: int, b: int)
    requires
        0 <= a < list.len(),
        0 <= b < list.len(),
    ensures
        list.update(a, list[b]).update(b, list[a]).to_multiset() == list.to_multiset(),
{
    if a == b {
        assert(list.update(a, list[b]).update(b, list[a]) =~= list);
    } else {
        let first = list.update(a, list[b]);
        vstd::seq_lib::to_multiset_update(list, a, list[b]);
        vstd::seq_lib::to_multiset_update(first, b, list[a]);
        assert(first[b] == list[b]);
        list.to_multiset_ensures();
        assert(list.contains(list[a]));
        let m = list.to_multiset();
        assert(m.count(list[a]) > 0);
        let m1 = m.insert(list[b]).remove(list[a]);
        let m2 = m1.insert(list[a]).remove(list[b]);
        assert(m2 =~= m);
    }
}

/// The shuffle keeps the list's length and its elements, each as often: its
/// answer is a permutation of the list.
pub proof fn lemma_shuffle_is_permutation(list: Seq<usize>, s: int, i: nat)
    requires
        shuffle_returns(s, i),
    ensures
        shuffled(list, s, i).len() == list.len(),
        shuffled(list, s, i).to_multiset() == list.to_multiset(),
    decreases i,
{
    if i > 1 && i <= list.len() {
        let (j, s2) = next_int_outcome(s, i as i32);
        lemma_outcome_in_range(s, i as i32);
        let swapped = list.update(i - 1, list[j]).update(j, list[i - 1]);
        lemma_swap_multiset(list, i - 1, j);
        lemma_shuffle_is_permutation(swapped, s2, (i - 1) as nat);
    }
}

/// `permutation(n)` puts each of `0..n` in exactly once: its answer is a
/// permutation of `0..n`.
pub proof fn lemma_permutation_of_range(n: nat)
    requires
        shuffle_returns(initial_state(99), n),
    ensures
        shuffled(Seq::new(n, |k: int| k as usize), initial_state(99), n).to_multiset() == Seq::new(
            n,
            |k: int| k as usize,
        ).to_multiset(),
{
    lemma_shuffle_is_permutation(Seq::new(n, |k: int| k as usize), initial_state(99), n);
}

} // verus!
