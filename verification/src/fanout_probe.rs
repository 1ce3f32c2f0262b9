//! The fanout driver's `removed` column: the item ids a pass took off the
//! board, in ascending order.
use vstd::prelude::*;
use vstd::relations::{sorted_by, total_ordering};
use crate::text::{bracketed, bracketed_list, int_values};

verus! {

/// The ids of `before` that `after` does not hold, in the order of `before`.
pub open spec fn missing_from(before: Seq<u32>, after: Seq<u32>) -> Seq<u32>
    decreases before.len(),
{
    if before.len() == 0 {
        before
    } else if after.contains(before.last()) {
        missing_from(before.drop_last(), after)
    } else {
        missing_from(before.drop_last(), after).push(before.last())
    }
}

/// Ascending order on ids.
pub open spec fn id_leq(a: u32, b: u32) -> bool {
    a <= b
}

/// The ids as integers.
pub open spec fn id_values(ids: Seq<u32>) -> Seq<int> {
    ids.map_values(|x: u32| x as int)
}

/// What `removed` prints: the missing ids in ascending order, comma
/// separated, between brackets.
pub open spec fn removed_text(before: Seq<u32>, after: Seq<u32>) -> Seq<char> {
    bracketed(id_values(missing_from(before, after).sort_by(|a: u32, b: u32| id_leq(a, b))), seq![','])
}

proof fn lemma_id_order_total()
    ensures
        total_ordering(|a: u32, b: u32| id_leq(a, b)),
{
}

fn holds(ids: &[u32], id: u32) -> (b: bool)
    ensures
        b == ids@.contains(id),
{
    let mut i: usize = 0;
    while i < ids.len()
        invariant
            i <= ids@.len(),
            forall|k: int| 0 <= k < i ==> ids@[k] != id,
        decreases ids.len() - i,
    {
        if ids[i] == id {
            assert(ids@[i as int] == id);
            return true;
        }
        i = i + 1;
    }
    false
}

/// Inserts `x` into the ascending `v`, keeping it ascending.
fn insert_sorted(v: &mut Vec<u32>, x: u32)
    requires
        sorted_by(old(v)@, |a: u32, b: u32| id_leq(a, b)),
    ensures
        sorted_by(final(v)@, |a: u32, b: u32| id_leq(a, b)),
        final(v)@.to_multiset() == old(v)@.to_multiset().insert(x),
{
    let mut pos: usize = 0;
    while pos < v.len() && v[pos] <= x
        invariant
            pos <= v@.len(),
            forall|k: int| 0 <= k < pos ==> v@[k] <= x,
        decreases v.len() - pos,
    {
        pos = pos + 1;
    }
    let ghost before = v@;
    proof {
        if pos < before.len() {
            assert(x < before[pos as int]);
        }
    }
    v.insert(pos, x);
    proof {
        vstd::seq_lib::to_multiset_insert(before, pos as int, x);
        assert(v@ =~= before.insert(pos as int, x));
        assert forall|a: int, b: int| 0 <= a < b < v@.len() implies id_leq(v@[a], v@[b]) by {
            if b < pos {
                lemma_sorted_at(before, a, b);
            } else if b == pos {
            } else if a < pos {
                lemma_sorted_at(before, pos as int, b - 1);
                assert(v@[b] == before[b - 1]);
            } else if a == pos {
                lemma_sorted_at(before, pos as int, b - 1);
                assert(v@[b] == before[b - 1]);
            } else {
                lemma_sorted_at(before, a - 1, b - 1);
                assert(v@[a] == before[a - 1]);
                assert(v@[b] == before[b - 1]);
            }
        }
    }
}

proof fn lemma_sorted_at(s: Seq<u32>, i: int, j: int)
    requires
        sorted_by(s, |a: u32, b: u32| id_leq(a, b)),
        0 <= i <= j < s.len(),
    ensures
        s[i] <= s[j],
{
    if i < j {
        let leq = |a: u32, b: u32| id_leq(a, b);
        assert(leq(s[i], s[j]));
    }
}

/// The ids in ascending order (`sort_unstable`).
pub fn ascending(ids: &[u32]) -> (out: Vec<u32>)
    ensures
        out@ == ids@.sort_by(|a: u32, b: u32| id_leq(a, b)),
{
    let mut out: Vec<u32> = Vec::new();
    let mut i: usize = 0;
    assert(ids@.take(0) =~= Seq::<u32>::empty());
    while i < ids.len()
        invariant
            i <= ids@.len(),
            sorted_by(out@, |a: u32, b: u32| id_leq(a, b)),
            out@.to_multiset() == ids@.take(i as int).to_multiset(),
        decreases ids.len() - i,
    {
        let ghost prev = ids@.take(i as int);
        insert_sorted(&mut out, ids[i]);
        proof {
            assert(ids@.take(i + 1) =~= prev.push(ids@[i as int]));
            vstd::seq_lib::to_multiset_build(prev, ids@[i as int]);
        }
        i = i + 1;
    }
    assert(ids@.take(ids.len() as int) =~= ids@);
    let ghost leq = |a: u32, b: u32| id_leq(a, b);
    proof {
        lemma_id_order_total();
        ids@.lemma_sort_by_ensures(leq);
        vstd::seq_lib::lemma_sorted_unique(out@, ids@.sort_by(leq), leq);
    }
    out
}

/// `removed(before, after)`: see [`removed_text`].
pub fn removed(before: &[u32], after: &[u32]) -> (out: String)
    ensures
        out@ == removed_text(before@, after@),
{
    let mut gone: Vec<u32> = Vec::new();
    let mut i: usize = 0;
    assert(before@.take(0) =~= Seq::<u32>::empty());
    assert(gone@ =~= missing_from(before@.take(0), after@));
    while i < before.len()
        invariant
            i <= before@.len(),
            sorted_by(gone@, |a: u32, b: u32| id_leq(a, b)),
            gone@.to_multiset() == missing_from(before@.take(i as int), after@).to_multiset(),
        decreases before.len() - i,
    {
        assert(before@.take(i + 1).drop_last() =~= before@.take(i as int));
        let id = before[i];
        if !holds(after, id) {
            let ghost prev = missing_from(before@.take(i as int), after@);
            insert_sorted(&mut gone, id);
            proof {
                vstd::seq_lib::to_multiset_build(prev, id);
            }
        }
        i = i + 1;
    }
    assert(before@.take(before.len() as int) =~= before@);
    let ghost all = missing_from(before@, after@);
    let ghost leq = |a: u32, b: u32| id_leq(a, b);
    proof {
        lemma_id_order_total();
        all.lemma_sort_by_ensures(leq);
        vstd::seq_lib::lemma_sorted_unique(gone@, all.sort_by(leq), leq);
    }
    let mut wide: Vec<i64> = Vec::new();
    let mut k: usize = 0;
    while k < gone.len()
        invariant
            k <= gone@.len(),
            wide@.len() == k,
            forall|q: int| 0 <= q < k ==> #[trigger] wide@[q] == gone@[q] as i64,
        decreases gone.len() - k,
    {
        wide.push(gone[k] as i64);
        k = k + 1;
    }
    assert(int_values(wide@) =~= id_values(gone@));
    proof {
        reveal_strlit(",");
        assert(","@ =~= seq![',']);
    }
    bracketed_list(&wide, ",")
}

} // verus!
