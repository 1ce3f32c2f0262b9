//! The design-rule probe's reports: the unconnected-item findings with their
//! per-kind tallies, and the ratsnest's airlines, sorted as unordered pairs
//! and, on request, in the checker's own order.
use vstd::prelude::*;
use vstd::relations::total_ordering;
use crate::fanout_probe::{ascending, id_leq};
use crate::kinds::{kind_class, kind_string, ItemKind, UnconnectedKind};
use crate::text::{decimal, decimal_list, digits, int_values, push_char, push_decimal_list, push_digits, push_int, push_str};

verus! {

/// The `type` word of a finding.
pub open spec fn kind_word(kind: UnconnectedKind) -> Seq<char> {
    match kind {
        UnconnectedKind::UnconnectedItems => "unconnectedItems"@,
        UnconnectedKind::TrackDangling => "track_dangling"@,
        UnconnectedKind::ViaDangling => "via_dangling"@,
    }
}

/// The representative class of an item: `Pin`, `Trace`, or `other`.
pub open spec fn class_word(kind: Option<ItemKind>) -> Seq<char> {
    if kind == Some(ItemKind::Pin) {
        "Pin"@
    } else if kind == Some(ItemKind::Trace) {
        "Trace"@
    } else {
        "other"@
    }
}

/// One unconnected-item finding: its kind, the classes of its first item and
/// (when it has one) its second, and the ids of all its items.
pub struct Finding {
    pub kind: UnconnectedKind,
    pub first: Option<ItemKind>,
    pub second: Option<Option<ItemKind>>,
    pub items: Vec<u32>,
}

/// The ids in ascending order.
pub open spec fn sorted_ids(ids: Seq<u32>) -> Seq<u32> {
    ids.sort_by(|a: u32, b: u32| id_leq(a, b))
}

/// The ids as integers.
pub open spec fn wide(ids: Seq<u32>) -> Seq<int> {
    ids.map_values(|x: u32| x as int)
}

/// `U <kind> <first class> <second class or -> <ascending ids>`.
pub open spec fn finding_line(f: Finding) -> Seq<char> {
    seq!['U', ' '] + kind_word(f.kind) + seq![' '] + class_word(f.first) + seq![' '] + match f.second {
        Some(k) => class_word(k),
        None => seq!['-'],
    } + seq![' '] + decimal_list(wide(sorted_ids(f.items@)), seq![','])
}

/// How many of the findings are of `kind`.
pub open spec fn count_kind(fs: Seq<Finding>, kind: UnconnectedKind) -> nat
    decreases fs.len(),
{
    if fs.len() == 0 {
        0
    } else {
        count_kind(fs.drop_last(), kind) + if fs.last().kind == kind {
            1nat
        } else {
            0nat
        }
    }
}

/// The report: one line per finding, then the total and the three tallies.
pub open spec fn unconnected_report(fs: Seq<Finding>) -> Seq<Seq<char>> {
    Seq::new(fs.len(), |k: int| finding_line(fs[k])) + seq![
        "UCOUNT "@ + digits(fs.len()),
        "UTYPE unconnectedItems "@ + digits(count_kind(fs, UnconnectedKind::UnconnectedItems)),
        "UTYPE track_dangling "@ + digits(count_kind(fs, UnconnectedKind::TrackDangling)),
        "UTYPE via_dangling "@ + digits(count_kind(fs, UnconnectedKind::ViaDangling)),
    ]
}

fn finding_text(f: &Finding) -> (out: String)
    ensures
        out@ == finding_line(*f),
{
    let mut out = String::new();
    push_char(&mut out, 'U');
    push_char(&mut out, ' ');
    push_str(&mut out, kind_string(f.kind));
    push_char(&mut out, ' ');
    push_str(&mut out, kind_class(f.first));
    push_char(&mut out, ' ');
    match f.second {
        Some(k) => push_str(&mut out, kind_class(k)),
        None => push_char(&mut out, '-'),
    }
    push_char(&mut out, ' ');
    let ids = ascending(f.items.as_slice());
    let mut w: Vec<i64> = Vec::new();
    let mut i: usize = 0;
    while i < ids.len()
        invariant
            i <= ids@.len(),
            w@.len() == i,
            forall|k: int| 0 <= k < i ==> #[trigger] w@[k] == ids@[k] as i64,
        decreases ids.len() - i,
    {
        w.push(ids[i] as i64);
        i = i + 1;
    }
    assert(int_values(w@) =~= wide(ids@));
    proof {
        reveal_strlit(",");
        assert(","@ =~= seq![',']);
    }
    push_decimal_list(&mut out, &w, ",");
    assert(out@ =~= finding_line(*f));
    out
}

fn tally_line(label: &str, n: usize) -> (out: String)
    ensures
        out@ == label@ + digits(n as nat),
{
    let mut out = String::new();
    push_str(&mut out, label);
    push_digits(&mut out, n as u64);
    out
}

/// `unconnected_items`' report for the findings: see [`unconnected_report`].
pub fn unconnected_lines(findings: &[Finding]) -> (lines: Vec<String>)
    ensures
        lines@.map_values(|l: String| l@) == unconnected_report(findings@),
{
    let mut lines: Vec<String> = Vec::new();
    let mut nets: usize = 0;
    let mut track: usize = 0;
    let mut vias: usize = 0;
    let mut i: usize = 0;
    while i < findings.len()
        invariant
            i <= findings@.len(),
            lines@.len() == i,
            forall|k: int| 0 <= k < i ==> #[trigger] lines@[k]@ == finding_line(findings@[k]),
            nets == count_kind(findings@.take(i as int), UnconnectedKind::UnconnectedItems),
            track == count_kind(findings@.take(i as int), UnconnectedKind::TrackDangling),
            vias == count_kind(findings@.take(i as int), UnconnectedKind::ViaDangling),
            nets + track + vias <= i,
        decreases findings.len() - i,
    {
        assert(findings@.take(i + 1).drop_last() =~= findings@.take(i as int));
        match findings[i].kind {
            UnconnectedKind::UnconnectedItems => nets = nets + 1,
            UnconnectedKind::TrackDangling => track = track + 1,
            UnconnectedKind::ViaDangling => vias = vias + 1,
        }
        lines.push(finding_text(&findings[i]));
        i = i + 1;
    }
    assert(findings@.take(findings.len() as int) =~= findings@);
    proof {
        reveal_strlit("UCOUNT ");
        reveal_strlit("UTYPE unconnectedItems ");
        reveal_strlit("UTYPE track_dangling ");
        reveal_strlit("UTYPE via_dangling ");
    }
    lines.push(tally_line("UCOUNT ", findings.len()));
    lines.push(tally_line("UTYPE unconnectedItems ", nets));
    lines.push(tally_line("UTYPE track_dangling ", track));
    lines.push(tally_line("UTYPE via_dangling ", vias));
    assert(lines@.map_values(|l: String| l@) =~= unconnected_report(findings@));
    lines
}

/// One airline of the ratsnest: its net and the ids it joins, in the
/// checker's direction.
#[derive(Clone, Copy, PartialEq, Eq, Debug)]
pub struct Airline {
    pub net: i32,
    pub from: u64,
    pub to: u64,
}

/// An airline as an unordered pair: its net, then the lower and the higher
/// id.
pub open spec fn unordered(a: Airline) -> (i32, u64, u64) {
    (a.net, if a.from <= a.to {
        a.from
    } else {
        a.to
    }, if a.from <= a.to {
        a.to
    } else {
        a.from
    })
}

/// Lexicographic order on `(net, low, high)`.
pub open spec fn triple_leq(a: (i32, u64, u64), b: (i32, u64, u64)) -> bool {
    a.0 < b.0 || (a.0 == b.0 && (a.1 < b.1 || (a.1 == b.1 && a.2 <= b.2)))
}

/// Lexicographic order on triples is a total order.
pub proof fn lemma_triple_order_total()
    ensures
        total_ordering(|a: (i32, u64, u64), b: (i32, u64, u64)| triple_leq(a, b)),
{
}

/// `AL <net> <low> <high>`.
pub open spec fn pair_line(t: (i32, u64, u64)) -> Seq<char> {
    seq!['A', 'L', ' '] + decimal(t.0 as int) + seq![' '] + digits(t.1 as nat) + seq![' '] + digits(
        t.2 as nat,
    )
}

/// `ALD <net> <from> <to>`.
pub open spec fn directed_line(a: Airline) -> Seq<char> {
    seq!['A', 'L', 'D', ' '] + decimal(a.net as int) + seq![' '] + digits(a.from as nat) + seq![' ']
        + digits(a.to as nat)
}

/// The airlines as sorted unordered pairs.
pub open spec fn sorted_pairs(airlines: Seq<Airline>) -> Seq<(i32, u64, u64)> {
    airlines.map_values(|a: Airline| unordered(a)).sort_by(
        |a: (i32, u64, u64), b: (i32, u64, u64)| triple_leq(a, b),
    )
}

/// The airline part of the ratsnest report: the count, one `AL` line per
/// sorted unordered pair, and, when `directional`, one `ALD` line per
/// airline in the checker's order.
pub open spec fn airline_report(airlines: Seq<Airline>, directional: bool) -> Seq<Seq<char>> {
    seq!["ALCOUNT "@ + digits(airlines.len())] + Seq::new(
        airlines.len(),
        |k: int| pair_line(sorted_pairs(airlines)[k]),
    ) + if directional {
        Seq::new(airlines.len(), |k: int| directed_line(airlines[k]))
    } else {
        Seq::<Seq<char>>::empty()
    }
}

/// Every triple comes before or equals every later one.
pub open spec fn triples_sorted(s: Seq<(i32, u64, u64)>) -> bool {
    forall|i: int, j: int| 0 <= i < j < s.len() ==> triple_leq(#[trigger] s[i], #[trigger] s[j])
}

fn insert_triple(v: &mut Vec<(i32, u64, u64)>, x: (i32, u64, u64))
    requires
        triples_sorted(old(v)@),
    ensures
        triples_sorted(final(v)@),
        final(v)@.to_multiset() == old(v)@.to_multiset().insert(x),
{
    let mut pos: usize = 0;
    while pos < v.len() && (v[pos].0 < x.0 || (v[pos].0 == x.0 && (v[pos].1 < x.1 || (v[pos].1
        == x.1 && v[pos].2 <= x.2))))
        invariant
            pos <= v@.len(),
            forall|k: int| 0 <= k < pos ==> triple_leq(#[trigger] v@[k], x),
        decreases v.len() - pos,
    {
        pos = pos + 1;
    }
    let ghost before = v@;
    v.insert(pos, x);
    proof {
        vstd::seq_lib::to_multiset_insert(before, pos as int, x);
        assert(v@ =~= before.insert(pos as int, x));
        assert forall|a: int, b: int| 0 <= a < b < v@.len() implies triple_leq(
            #[trigger] v@[a],
            #[trigger] v@[b],
        ) by {
            if b < pos {
                assert(triple_leq(before[a], before[b]));
            } else if b == pos {
            } else if a < pos {
                assert(v@[b] == before[b - 1]);
                if pos < b - 1 {
                    assert(triple_leq(before[pos as int], before[b - 1]));
                }
            } else if a == pos {
                assert(v@[b] == before[b - 1]);
                if pos < b - 1 {
                    assert(triple_leq(before[pos as int], before[b - 1]));
                }
            } else {
                assert(v@[a] == before[a - 1]);
                assert(v@[b] == before[b - 1]);
                assert(triple_leq(before[a - 1], before[b - 1]));
            }
        }
    }
}

fn push_triple(out: &mut String, net: i32, a: u64, b: u64)
    ensures
        final(out)@ == old(out)@ + decimal(net as int) + seq![' '] + digits(a as nat) + seq![' ']
            + digits(b as nat),
{
    push_int(out, net as i64);
    push_char(out, ' ');
    push_digits(out, a);
    push_char(out, ' ');
    push_digits(out, b);
    assert(final(out)@ =~= old(out)@ + decimal(net as int) + seq![' '] + digits(a as nat) + seq![
        ' ',
    ] + digits(b as nat));
}

/// `ratsnest`'s airline lines: see [`airline_report`].
pub fn airline_lines(airlines: &[Airline], directional: bool) -> (lines: Vec<String>)
    ensures
        lines@.map_values(|l: String| l@) == airline_report(airlines@, directional),
{
    let ghost leq = |a: (i32, u64, u64), b: (i32, u64, u64)| triple_leq(a, b);
    let ghost all = airlines@.map_values(|a: Airline| unordered(a));
    let mut triples: Vec<(i32, u64, u64)> = Vec::new();
    let mut i: usize = 0;
    assert(all.take(0) =~= Seq::<(i32, u64, u64)>::empty());
    while i < airlines.len()
        invariant
            i <= airlines@.len(),
            all == airlines@.map_values(|a: Airline| unordered(a)),
            triples_sorted(triples@),
            triples@.to_multiset() == all.take(i as int).to_multiset(),
        decreases airlines.len() - i,
    {
        let a = airlines[i];
        let low = if a.from <= a.to {
            a.from
        } else {
            a.to
        };
        let high = if a.from <= a.to {
            a.to
        } else {
            a.from
        };
        let ghost prev = all.take(i as int);
        insert_triple(&mut triples, (a.net, low, high));
        proof {
            assert(all.take(i + 1) =~= prev.push(all[i as int]));
            vstd::seq_lib::to_multiset_build(prev, all[i as int]);
        }
        i = i + 1;
    }
    assert(all.take(airlines.len() as int) =~= all);
    proof {
        lemma_triple_order_total();
        assert forall|a: int, b: int| 0 <= a < b < triples@.len() implies #[trigger] leq(
            triples@[a],
            triples@[b],
        ) by {
            assert(triple_leq(triples@[a], triples@[b]));
        }
        all.lemma_sort_by_ensures(leq);
        vstd::seq_lib::lemma_sorted_unique(triples@, all.sort_by(leq), leq);
        broadcast use vstd::seq_lib::group_to_multiset_ensures;
        assert(triples@.len() == triples@.to_multiset().len());
        assert(all.len() == all.to_multiset().len());
    }
    let ghost want = airline_report(airlines@, directional);
    let mut lines: Vec<String> = Vec::new();
    proof {
        reveal_strlit("ALCOUNT ");
    }
    lines.push(tally_line("ALCOUNT ", airlines.len()));
    let mut k: usize = 0;
    while k < triples.len()
        invariant
            k <= triples@.len(),
            triples@ == sorted_pairs(airlines@),
            triples@.len() == airlines@.len(),
            want == airline_report(airlines@, directional),
            lines@.len() == k + 1,
            forall|q: int| 0 <= q < k + 1 ==> #[trigger] lines@[q]@ == want[q],
        decreases triples.len() - k,
    {
        let t = triples[k];
        let mut line = String::new();
        push_char(&mut line, 'A');
        push_char(&mut line, 'L');
        push_char(&mut line, ' ');
        push_triple(&mut line, t.0, t.1, t.2);
        assert(line@ =~= pair_line(t));
        lines.push(line);
        k = k + 1;
    }
    if directional {
        let mut j: usize = 0;
        while j < airlines.len()
            invariant
                j <= airlines@.len(),
                directional,
                want == airline_report(airlines@, directional),
                want.len() == 1 + 2 * airlines@.len(),
                lines@.len() == 1 + airlines@.len() + j,
                forall|q: int| 0 <= q < 1 + airlines@.len() + j ==> #[trigger] lines@[q]@ == want[q],
            decreases airlines.len() - j,
        {
            let a = airlines[j];
            let mut line = String::new();
            push_char(&mut line, 'A');
            push_char(&mut line, 'L');
            push_char(&mut line, 'D');
            push_char(&mut line, ' ');
            push_triple(&mut line, a.net, a.from, a.to);
            assert(line@ =~= directed_line(a));
            lines.push(line);
            j = j + 1;
        }
    }
    assert(lines@.map_values(|l: String| l@) =~= want);
    lines
}

} // verus!
