//! Lexicographic order on texts, as `String`'s `<` orders them (UTF-8 byte
//! order is code-point order), its laws, and a sort of lines by it.
use vstd::prelude::*;
use vstd::relations::total_ordering;
use crate::text::chars_of;

verus! {

/// `a` comes strictly before `b`: at the first position where they differ
/// `a` has the smaller character, or `a` is a proper prefix of `b`.
pub open spec fn lex_lt(a: Seq<char>, b: Seq<char>) -> bool
    decreases a.len(),
{
    if a.len() == 0 {
        b.len() > 0
    } else if b.len() == 0 {
        false
    } else if a[0] < b[0] {
        true
    } else if a[0] == b[0] {
        lex_lt(a.drop_first(), b.drop_first())
    } else {
        false
    }
}

/// `a` comes before `b` or equals it.
pub open spec fn lex_leq(a: Seq<char>, b: Seq<char>) -> bool {
    !lex_lt(b, a)
}

/// No text comes strictly before itself.
pub proof fn lemma_lex_irreflexive(a: Seq<char>)
    ensures
        !lex_lt(a, a),
    decreases a.len(),
{
    if a.len() > 0 {
        lemma_lex_irreflexive(a.drop_first());
    }
}

/// Of two texts that come strictly before each other, neither does.
pub proof fn lemma_lex_asymmetric(a: Seq<char>, b: Seq<char>)
    ensures
        !(lex_lt(a, b) && lex_lt(b, a)),
    decreases a.len(),
{
    if a.len() > 0 && b.len() > 0 && a[0] == b[0] {
        lemma_lex_asymmetric(a.drop_first(), b.drop_first());
    }
}

/// Two different texts are ordered one way or the other.
pub proof fn lemma_lex_trichotomy(a: Seq<char>, b: Seq<char>)
    ensures
        a == b || lex_lt(a, b) || lex_lt(b, a),
    decreases a.len(),
{
    if a.len() > 0 && b.len() > 0 && a[0] == b[0] {
        lemma_lex_trichotomy(a.drop_first(), b.drop_first());
        if a.drop_first() == b.drop_first() {
            assert(a =~= seq![a[0]] + a.drop_first());
            assert(b =~= seq![b[0]] + b.drop_first());
        }
    } else if a.len() == 0 && b.len() == 0 {
        assert(a =~= b);
    }
}

/// Strict precedence is transitive.
pub proof fn lemma_lex_transitive(a: Seq<char>, b: Seq<char>, c: Seq<char>)
    requires
        lex_lt(a, b),
        lex_lt(b, c),
    ensures
        lex_lt(a, c),
    decreases a.len(),
{
    if a.len() > 0 && b.len() > 0 && c.len() > 0 && a[0] == b[0] && b[0] == c[0] {
        lemma_lex_transitive(a.drop_first(), b.drop_first(), c.drop_first());
    }
}

/// `lex_leq` is a total order: reflexive, antisymmetric, transitive and
/// total.
pub proof fn lemma_lex_total()
    ensures
        total_ordering(|a: Seq<char>, b: Seq<char>| lex_leq(a, b)),
{
    let leq = |a: Seq<char>, b: Seq<char>| lex_leq(a, b);
    assert forall|a: Seq<char>| #[trigger] leq(a, a) by {
        lemma_lex_irreflexive(a);
    }
    assert forall|a: Seq<char>, b: Seq<char>| #[trigger] leq(a, b) && #[trigger] leq(b, a) implies a
        == b by {
        lemma_lex_trichotomy(a, b);
    }
    assert forall|a: Seq<char>, b: Seq<char>, c: Seq<char>|
        #[trigger] leq(a, b) && #[trigger] leq(b, c) implies leq(a, c) by {
        lemma_lex_trichotomy(a, b);
        lemma_lex_trichotomy(b, c);
        if lex_lt(c, a) {
            if a == b {
                assert(lex_lt(c, b));
            } else if b == c {
                assert(lex_lt(b, a));
            } else {
                lemma_lex_transitive(c, a, b);
            }
        }
    }
    assert forall|a: Seq<char>, b: Seq<char>| #[trigger] leq(a, b) || #[trigger] leq(b, a) by {
        lemma_lex_asymmetric(a, b);
    }
}

proof fn lemma_lex_skip(a: Seq<char>, b: Seq<char>, i: int)
    requires
        0 <= i <= a.len(),
        i <= b.len(),
        forall|k: int| 0 <= k < i ==> a[k] == b[k],
    ensures
        lex_lt(a, b) == lex_lt(a.skip(i), b.skip(i)),
    decreases i,
{
    if i > 0 {
        lemma_lex_skip(a.drop_first(), b.drop_first(), i - 1);
        assert(a.drop_first().skip(i - 1) =~= a.skip(i));
        assert(b.drop_first().skip(i - 1) =~= b.skip(i));
    } else {
        assert(a.skip(0) =~= a);
        assert(b.skip(0) =~= b);
    }
}

/// Whether `a` comes strictly before `b` (`a < b` on strings).
pub fn lex_less(a: &str, b: &str) -> (r: bool)
    ensures
        r == lex_lt(a@, b@),
{
    let x = chars_of(a);
    let y = chars_of(b);
    let mut i: usize = 0;
    while i < x.len() && i < y.len() && x[i] == y[i]
        invariant
            i <= x@.len(),
            i <= y@.len(),
            x@ == a@,
            y@ == b@,
            forall|k: int| 0 <= k < i ==> x@[k] == y@[k],
        decreases x.len() - i,
    {
        i = i + 1;
    }
    proof {
        lemma_lex_skip(x@, y@, i as int);
    }
    if i == x.len() {
        i < y.len()
    } else if i == y.len() {
        false
    } else {
        assert(x@.skip(i as int)[0] == x@[i as int]);
        assert(y@.skip(i as int)[0] == y@[i as int]);
        x[i] < y[i]
    }
}

/// The texts of the lines.
pub open spec fn texts(lines: Seq<String>) -> Seq<Seq<char>> {
    lines.map_values(|s: String| s@)
}

/// The lines in lexicographic order.
pub open spec fn sorted_texts(lines: Seq<String>) -> Seq<Seq<char>> {
    texts(lines).sort_by(|a: Seq<char>, b: Seq<char>| lex_leq(a, b))
}

/// Every text of `s` comes before or equals every later one.
pub open spec fn lex_sorted(s: Seq<Seq<char>>) -> bool {
    forall|i: int, j: int| 0 <= i < j < s.len() ==> lex_leq(#[trigger] s[i], #[trigger] s[j])
}

proof fn lemma_sorted_at(s: Seq<Seq<char>>, i: int, j: int)
    requires
        lex_sorted(s),
        0 <= i <= j < s.len(),
    ensures
        lex_leq(s[i], s[j]),
{
    if i == j {
        lemma_lex_irreflexive(s[i]);
    }
}

/// `lines.sort()`: the same lines, in lexicographic order.
pub fn sort_lines(lines: Vec<String>) -> (out: Vec<String>)
    ensures
        texts(out@) == sorted_texts(lines@),
{
    let ghost leq = |a: Seq<char>, b: Seq<char>| lex_leq(a, b);
    let mut out: Vec<String> = Vec::new();
    let mut i: usize = 0;
    assert(texts(lines@.take(0)) =~= texts(out@));
    while i < lines.len()
        invariant
            i <= lines@.len(),
            lex_sorted(texts(out@)),
            texts(out@).to_multiset() == texts(lines@.take(i as int)).to_multiset(),
        decreases lines.len() - i,
    {
        let line = lines[i].clone();
        let mut pos: usize = 0;
        while pos < out.len() && !lex_less(line.as_str(), out[pos].as_str())
            invariant
                pos <= out@.len(),
                i < lines@.len(),
                line@ == lines@[i as int]@,
                forall|k: int| 0 <= k < pos ==> lex_leq(#[trigger] texts(out@)[k], line@),
            decreases out.len() - pos,
        {
            pos = pos + 1;
        }
        let ghost before = texts(out@);
        proof {
            if pos < before.len() {
                assert(lex_lt(line@, before[pos as int]));
            }
        }
        out.insert(pos, line);
        proof {
            assert(texts(out@) =~= before.insert(pos as int, line@));
            vstd::seq_lib::to_multiset_insert(before, pos as int, line@);
            assert(texts(lines@.take(i + 1)) =~= texts(lines@.take(i as int)).push(line@));
            vstd::seq_lib::to_multiset_build(texts(lines@.take(i as int)), line@);
            let now = texts(out@);
            assert forall|a: int, b: int| 0 <= a < b < now.len() implies lex_leq(
                #[trigger] now[a],
                #[trigger] now[b],
            ) by {
                if b < pos {
                    lemma_sorted_at(before, a, b);
                } else if b == pos {
                } else if a < pos {
                    lemma_sorted_at(before, pos as int, b - 1);
                    lemma_lex_asymmetric(line@, before[b - 1]);
                    lemma_lex_trichotomy(before[a], line@);
                    lemma_lex_trichotomy(line@, before[b - 1]);
                    if lex_lt(before[b - 1], before[a]) {
                        if before[a] == line@ {
                        } else {
                            lemma_lex_transitive(before[b - 1], before[a], line@);
                        }
                    }
                } else if a == pos {
                    lemma_sorted_at(before, pos as int, b - 1);
                    lemma_lex_asymmetric(line@, before[pos as int]);
                    lemma_lex_trichotomy(before[pos as int], before[b - 1]);
                    if lex_lt(before[b - 1], line@) {
                        if before[pos as int] == before[b - 1] {
                        } else {
                            lemma_lex_transitive(before[pos as int], before[b - 1], line@);
                        }
                    }
                } else {
                    lemma_sorted_at(before, a - 1, b - 1);
                }
            }
        }
        i = i + 1;
    }
    proof {
        assert(lines@.take(lines.len() as int) =~= lines@);
        lemma_lex_total();
        let done = texts(out@);
        assert forall|a: int, b: int| 0 <= a < b < done.len() implies #[trigger] leq(
            done[a],
            done[b],
        ) by {
            lemma_sorted_at(done, a, b);
        }
        texts(lines@).lemma_sort_by_ensures(leq);
        vstd::seq_lib::lemma_sorted_unique(texts(out@), sorted_texts(lines@), leq);
    }
    out
}

} // verus!
