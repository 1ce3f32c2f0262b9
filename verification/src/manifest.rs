//! The result-manifest normaliser and the manifest driver's text helpers:
//! the five rules that make two manifests comparable, the escaping of a
//! transcript line, and `Path.getParent` as Java prints it.
use vstd::prelude::*;
use vstd::utf8::encode_utf8;
use crate::job_probe::{has_null_parent, java_path_chars, java_path_text};
use crate::text::{
    digits, hex_digits, last_index_of, push_char, push_digits, push_digits_padded, push_hex_padded, push_str,
    rfind, zero_padded, printable, lemma_hex_digits_printable, lemma_zero_padded_printable,
    lemma_concat_printable,
    chars_of, count_chars, count_of, extend_chars, find, find_first, find_from, join, join_pieces,
    leading_whitespace, lemma_split_nonempty, matches_at, occurs_at, replace, replace_all, split, split_on, string_of,
    trim_start, free_of, is_unicode_whitespace, lemma_find_from_meaning, lemma_replace_all_first,
    lemma_replace_all_absent, lemma_trim_start_concat, lemma_split_pieces_free, lemma_split_join,
};

verus! {

/// `"resource_usage":`, the key whose whole object the normaliser drops.
pub open spec fn resource_usage_key() -> Seq<char> {
    seq!['"', 'r', 'e', 's', 'o', 'u', 'r', 'c', 'e', '_', 'u', 's', 'a', 'g', 'e', '"', ':']
}

/// `"generated_at": `, `"git_sha": ` and `"duration_seconds": `, in the order
/// the normaliser tries them.
pub open spec fn key_needle(k: int) -> Seq<char> {
    if k == 0 {
        seq!['"', 'g', 'e', 'n', 'e', 'r', 'a', 't', 'e', 'd', '_', 'a', 't', '"', ':', ' ']
    } else if k == 1 {
        seq!['"', 'g', 'i', 't', '_', 's', 'h', 'a', '"', ':', ' ']
    } else {
        seq![
            '"', 'd', 'u', 'r', 'a', 't', 'i', 'o', 'n', '_', 's', 'e', 'c', 'o', 'n', 'd', 's',
            '"', ':', ' ',
        ]
    }
}

/// `"<normalized>"`, the value every normalised key is given.
pub open spec fn normalized_value() -> Seq<char> {
    seq!['"', '<', 'n', 'o', 'r', 'm', 'a', 'l', 'i', 'z', 'e', 'd', '>', '"']
}

/// `<DIR>`, what the absolute prefix is replaced with.
pub open spec fn dir_marker() -> Seq<char> {
    seq!['<', 'D', 'I', 'R', '>']
}

/// `line` with everything after the first `needle` (at `at`) replaced by the
/// normalised value, keeping a trailing comma.
pub open spec fn rewritten(line: Seq<char>, needle: Seq<char>, at: int) -> Seq<char> {
    line.take(at) + needle + normalized_value() + if line.len() > 0 && line.last() == ',' {
        seq![',']
    } else {
        Seq::<char>::empty()
    }
}

/// One line of the manifest, normalised: the first of the three keys that
/// occurs has its value replaced; a line with none of them has the absolute
/// prefix (when there is one) replaced by `<DIR>`.
pub open spec fn normalized_line(line: Seq<char>, prefix: Seq<char>) -> Seq<char> {
    if find_first(line, key_needle(0)) is Some {
        rewritten(line, key_needle(0), find_first(line, key_needle(0))->0)
    } else if find_first(line, key_needle(1)) is Some {
        rewritten(line, key_needle(1), find_first(line, key_needle(1))->0)
    } else if find_first(line, key_needle(2)) is Some {
        rewritten(line, key_needle(2), find_first(line, key_needle(2))->0)
    } else if prefix.len() == 0 {
        line
    } else {
        replace_all(line, prefix, dir_marker())
    }
}

/// The normaliser strips a volatile value whatever it is: two lines in which
/// the same volatile key is the first to occur, at the same place after the
/// same text, and which agree on a trailing comma, normalise alike.
pub proof fn lemma_volatile_value_dropped(l1: Seq<char>, l2: Seq<char>, k: int, at: int, prefix: Seq<char>)
    requires
        0 <= k < 3,
        forall|j: int| 0 <= j < k ==> find_first(l1, key_needle(j)) is None,
        forall|j: int| 0 <= j < k ==> find_first(l2, key_needle(j)) is None,
        find_first(l1, key_needle(k)) == Some(at),
        find_first(l2, key_needle(k)) == Some(at),
        l1.take(at) == l2.take(at),
        (l1.len() > 0 && l1.last() == ',') == (l2.len() > 0 && l2.last() == ','),
    ensures
        normalized_line(l1, prefix) == normalized_line(l2, prefix),
{
    if k == 1 {
        assert(find_first(l1, key_needle(0)) is None);
        assert(find_first(l2, key_needle(0)) is None);
    } else if k == 2 {
        assert(find_first(l1, key_needle(0)) is None);
        assert(find_first(l2, key_needle(0)) is None);
        assert(find_first(l1, key_needle(1)) is None);
        assert(find_first(l2, key_needle(1)) is None);
    }
}

/// Whether `line`, after its leading white space, opens the `resource_usage`
/// key.
pub open spec fn opens_resource_usage(line: Seq<char>) -> bool {
    let t = trim_start(line);
    t.len() >= resource_usage_key().len() && t.take(resource_usage_key().len() as int)
        == resource_usage_key()
}

/// The brace balance of a line: opening minus closing braces.
pub open spec fn brace_balance(line: Seq<char>) -> int {
    count_of(line, '{') - count_of(line, '}')
}

/// The normaliser after reading `lines`: the kept lines, whether it is inside
/// the dropped `resource_usage` object, and the brace depth it has left there.
pub open spec fn manifest_state(lines: Seq<Seq<char>>, prefix: Seq<char>) -> (
    Seq<Seq<char>>,
    bool,
    int,
)
    decreases lines.len(),
{
    if lines.len() == 0 {
        (Seq::<Seq<char>>::empty(), false, 0)
    } else {
        let (kept, skipping, depth) = manifest_state(lines.drop_last(), prefix);
        let line = lines.last();
        if skipping {
            let d = depth + brace_balance(line);
            (kept, d > 0, d)
        } else if opens_resource_usage(line) {
            let d = brace_balance(line);
            if d > 0 {
                (kept, true, d)
            } else {
                (kept, false, depth)
            }
        } else {
            (kept.push(normalized_line(line, prefix)), false, depth)
        }
    }
}

/// The normalised manifest: the kept lines of `json`, joined by newlines.
pub open spec fn normalized_manifest(json: Seq<char>, prefix: Seq<char>) -> Seq<char> {
    join(manifest_state(split_on(json, '\n'), prefix).0, seq!['\n'])
}

/// Two lines that differ at most in the value of the first volatile key they
/// hold: the same key is the first to occur in both, at the same place after
/// the same text, and both end in a comma or neither does.
pub open spec fn differ_in_volatile_value(l1: Seq<char>, l2: Seq<char>) -> bool {
    exists|k: int, at: int|
        #![trigger find_first(l1, key_needle(k)), l1.take(at)]
        {
            &&& 0 <= k < 3
            &&& forall|j: int| 0 <= j < k ==> find_first(l1, key_needle(j)) is None
            &&& forall|j: int| 0 <= j < k ==> find_first(l2, key_needle(j)) is None
            &&& find_first(l1, key_needle(k)) == Some(at)
            &&& find_first(l2, key_needle(k)) == Some(at)
            &&& l1.take(at) == l2.take(at)
            &&& (l1.len() > 0 && l1.last() == ',') == (l2.len() > 0 && l2.last() == ',')
        }
}

/// Line `l2` stands where `l1` stands, after the lines `before` of the first
/// manifest: it is the same line; or both are kept and differ only in a
/// volatile value; or both lie inside the dropped `resource_usage` object and
/// open and close as many braces.
pub open spec fn volatile_counterpart(before: Seq<Seq<char>>, l1: Seq<char>, l2: Seq<char>, prefix: Seq<char>) -> bool {
    let inside = manifest_state(before, prefix).1;
    ||| l1 == l2
    ||| !inside && !opens_resource_usage(l1) && !opens_resource_usage(l2) && differ_in_volatile_value(l1, l2)
    ||| inside && brace_balance(l1) == brace_balance(l2)
}

proof fn lemma_states_agree(lines1: Seq<Seq<char>>, lines2: Seq<Seq<char>>, prefix: Seq<char>)
    requires
        lines1.len() == lines2.len(),
        forall|i: int|
            0 <= i < lines1.len() ==> volatile_counterpart(lines1.take(i), #[trigger] lines1[i], lines2[i], prefix),
    ensures
        manifest_state(lines1, prefix) == manifest_state(lines2, prefix),
    decreases lines1.len(),
{
    if lines1.len() > 0 {
        let n = lines1.len() - 1;
        let f1 = lines1.drop_last();
        let f2 = lines2.drop_last();
        assert forall|i: int| 0 <= i < f1.len() implies volatile_counterpart(f1.take(i), #[trigger] f1[i], f2[i], prefix) by {
            assert(f1.take(i) =~= lines1.take(i));
            assert(lines1[i] == f1[i]);
        }
        lemma_states_agree(f1, f2, prefix);
        assert(lines1.take(n) =~= f1);
        let l1 = lines1[n];
        let l2 = lines2[n];
        assert(volatile_counterpart(lines1.take(n), l1, l2, prefix));
        assert(lines1.last() == l1);
        assert(lines2.last() == l2);
        if l1 != l2 && !manifest_state(f1, prefix).1 {
            let (k, at) = choose|k: int, at: int|
                #![trigger find_first(l1, key_needle(k)), l1.take(at)]
                {
                    &&& 0 <= k < 3
                    &&& forall|j: int| 0 <= j < k ==> find_first(l1, key_needle(j)) is None
                    &&& forall|j: int| 0 <= j < k ==> find_first(l2, key_needle(j)) is None
                    &&& find_first(l1, key_needle(k)) == Some(at)
                    &&& find_first(l2, key_needle(k)) == Some(at)
                    &&& l1.take(at) == l2.take(at)
                    &&& (l1.len() > 0 && l1.last() == ',') == (l2.len() > 0 && l2.last() == ',')
                };
            lemma_volatile_value_dropped(l1, l2, k, at, prefix);
        }
    }
}

/// What the normaliser is for: two manifests that differ only in the values
/// of `generated_at`, `git_sha` and `duration_seconds`, and inside the
/// dropped `resource_usage` object, normalise to the same text.
pub proof fn lemma_volatile_parts_ignored(json1: Seq<char>, json2: Seq<char>, prefix: Seq<char>)
    requires
        split_on(json1, '\n').len() == split_on(json2, '\n').len(),
        forall|i: int|
            0 <= i < split_on(json1, '\n').len() ==> volatile_counterpart(
                split_on(json1, '\n').take(i),
                #[trigger] split_on(json1, '\n')[i],
                split_on(json2, '\n')[i],
                prefix,
            ),
    ensures
        normalized_manifest(json1, prefix) == normalized_manifest(json2, prefix),
{
    lemma_states_agree(split_on(json1, '\n'), split_on(json2, '\n'), prefix);
}


/// An absolute prefix the normaliser can apply twice to the same effect:
/// none, or one that starts with `/` and holds no `<` or `>`.
pub open spec fn stable_prefix(prefix: Seq<char>) -> bool {
    prefix.len() == 0 || (prefix[0] == '/' && forall|i: int|
        0 <= i < prefix.len() ==> prefix[i] != '<' && prefix[i] != '>')
}

/// A line the normaliser keeps and leaves as it is.
pub open spec fn settled(line: Seq<char>, prefix: Seq<char>) -> bool {
    &&& free_of(line, '\n')
    &&& !opens_resource_usage(line)
    &&& normalized_line(line, prefix) == line
}

proof fn lemma_key_chars()
    ensures
        forall|i: int| 0 <= i < 17 ==> resource_usage_key()[i] != '<',
        forall|i: int| 1 <= i < 17 && i != 15 ==> resource_usage_key()[i] != '"',
        resource_usage_key()[16] == ':',
        resource_usage_key()[1] == 'r',
        resource_usage_key().len() == 17,
{
    let key = resource_usage_key();
    assert forall|i: int| 0 <= i < 17 implies key[i] != '<' && (i != 0 && i != 15 ==> key[i] != '"') by {
        if i < 8 {
            if i < 4 {
                assert(key[0] == '"' && key[1] == 'r' && key[2] == 'e' && key[3] == 's');
            } else {
                assert(key[4] == 'o' && key[5] == 'u' && key[6] == 'r' && key[7] == 'c');
            }
        } else if i < 12 {
            assert(key[8] == 'e' && key[9] == '_' && key[10] == 'u' && key[11] == 's');
        } else {
            assert(key[12] == 'a' && key[13] == 'g' && key[14] == 'e' && key[15] == '"' && key[16] == ':');
        }
    }
}

/// Whether `c` is one of the characters of `<DIR>`.
spec fn marker_char(c: char) -> bool {
    c == '<' || c == 'D' || c == 'I' || c == 'R' || c == '>'
}

proof fn lemma_marker_chars()
    ensures
        forall|j: int| 0 <= j < 5 ==> marker_char(#[trigger] dir_marker()[j]),
        dir_marker()[0] == '<',
        dir_marker().len() == 5,
{
    let d = dir_marker();
    assert(d[0] == '<' && d[1] == 'D' && d[2] == 'I' && d[3] == 'R' && d[4] == '>');
}

proof fn lemma_needle_chars(k: int)
    requires
        0 <= k < 3,
    ensures
        key_needle(k).len() >= 11,
        key_needle(k)[0] == '"',
        key_needle(k)[1] == 'g' || key_needle(k)[1] == 'd',
        key_needle(k)[key_needle(k).len() - 1] == ' ',
        forall|i: int| 0 <= i < key_needle(k).len() ==> !marker_char(#[trigger] key_needle(k)[i]),
        forall|i: int| 0 <= i < key_needle(k).len() ==> #[trigger] key_needle(k)[i] != '\n',
{
    let n = key_needle(k);
    assert forall|i: int| 0 <= i < n.len() implies !marker_char(#[trigger] n[i]) && n[i] != '\n' by {
        if k == 0 {
            assert(n =~= seq!['"', 'g', 'e', 'n', 'e', 'r', 'a', 't', 'e', 'd', '_', 'a', 't', '"', ':', ' ']);
        } else if k == 1 {
            assert(n =~= seq!['"', 'g', 'i', 't', '_', 's', 'h', 'a', '"', ':', ' ']);
        }
    }
}

/// A rewritten line is settled: its first volatile key is still the first,
/// at the same place, and it ends as it did.
#[verifier::spinoff_prover]
proof fn lemma_rewritten_settles(l: Seq<char>, k: int, at: int, prefix: Seq<char>)
    requires
        0 <= k < 3,
        forall|j: int| 0 <= j < k ==> find_first(l, key_needle(j)) is None,
        find_first(l, key_needle(k)) == Some(at),
        free_of(l, '\n'),
        !opens_resource_usage(l),
    ensures
        settled(rewritten(l, key_needle(k), at), prefix),
{
    let nk = key_needle(k);
    lemma_needle_chars(k);
    let comma = if l.len() > 0 && l.last() == ',' {
        seq![',']
    } else {
        Seq::<char>::empty()
    };
    let nv = normalized_value();
    assert(nv[0] == '"' && nv[1] == '<' && nv[2] == 'n' && nv[3] == 'o' && nv[4] == 'r' && nv[5] == 'm'
        && nv[6] == 'a' && nv[7] == 'l' && nv[8] == 'i' && nv[9] == 'z' && nv[10] == 'e' && nv[11] == 'd'
        && nv[12] == '>' && nv[13] == '"');
    let tail = nv + comma;
    let r = rewritten(l, nk, at);
    lemma_find_from_meaning(l, nk, 0);
    assert(occurs_at(l, nk, at));
    let end = at + nk.len();
    assert(r =~= l.take(at) + nk + tail);
    assert forall|i: int| 0 <= i < end implies r[i] == l[i] by {
        if i >= at {
            assert(l.subrange(at, end)[i - at] == l[i]);
        }
    }
    assert forall|i: int| end <= i < r.len() implies r[i] != ' ' && r[i] != '\n' by {
        assert(r[i] == tail[i - end]);
    }
    assert forall|i: int| 0 <= i < r.len() implies r[i] != '\n' by {
        if i < at {
            assert(r[i] == l[i]);
        } else if i < end {
            assert(r[i] == nk[i - at]);
        }
    }
    // no earlier key occurs in the rewritten line
    assert forall|j: int| 0 <= j < k implies find_first(r, key_needle(j)) is None by {
        let nj = key_needle(j);
        lemma_needle_chars(j);
        lemma_find_from_meaning(l, nj, 0);
        lemma_find_from_meaning(r, nj, 0);
        if find_first(r, nj) is Some {
            let q = find_first(r, nj)->0;
            if q + nj.len() <= end {
                assert(r.subrange(q, q + nj.len()) =~= l.subrange(q, q + nj.len()));
                assert(occurs_at(l, nj, q));
            } else {
                let e = q + nj.len() - 1;
                assert(r.subrange(q, q + nj.len())[nj.len() - 1] == r[e]);
            }
        }
    }
    // the key itself is first found where it was
    lemma_find_from_meaning(r, nk, 0);
    assert(r.subrange(at, end) =~= nk);
    assert forall|q: int| 0 <= q < at implies !occurs_at(r, nk, q) by {
        if occurs_at(r, nk, q) {
            assert(r.subrange(q, q + nk.len()) =~= l.subrange(q, q + nk.len()));
            assert(occurs_at(l, nk, q));
        }
    }
    assert(occurs_at(r, nk, at));
    match find_first(r, nk) {
        Some(x) => {
            if x < at {
                assert(!occurs_at(r, nk, x));
            } else if x > at {
                assert(!occurs_at(r, nk, at));
            }
        },
        None => {
            assert(!occurs_at(r, nk, at));
        },
    }
    assert(r.take(at) =~= l.take(at));
    assert(r.last() == tail.last());
    assert((r.len() > 0 && r.last() == ',') == (l.len() > 0 && l.last() == ','));
    assert(rewritten(r, nk, at) =~= r);
    if k == 1 {
        assert(find_first(r, key_needle(0)) is None);
    } else if k == 2 {
        assert(find_first(r, key_needle(0)) is None);
        assert(find_first(r, key_needle(1)) is None);
    }
    lemma_rewritten_not_opening(l, k, at);
}

/// A rewritten line does not open the dropped object: the key's quote stands
/// where the object's key would need another character.
#[verifier::spinoff_prover]
proof fn lemma_rewritten_not_opening(l: Seq<char>, k: int, at: int)
    requires
        0 <= k < 3,
        find_first(l, key_needle(k)) == Some(at),
        !opens_resource_usage(l),
    ensures
        !opens_resource_usage(rewritten(l, key_needle(k), at)),
{
    let nk = key_needle(k);
    lemma_needle_chars(k);
    lemma_find_from_meaning(l, nk, 0);
    let comma = if l.len() > 0 && l.last() == ',' {
        seq![',']
    } else {
        Seq::<char>::empty()
    };
    let tail = normalized_value() + comma;
    let r = rewritten(l, nk, at);
    lemma_key_chars();
    let key = resource_usage_key();
    let a = l.take(at);
    let b = nk + tail;
    assert(r =~= a + b);
    lemma_trim_start_concat(a, b);
    lemma_trim_start_concat(a, l.skip(at));
    assert(a + l.skip(at) =~= l);
    if opens_resource_usage(r) {
        let tr = trim_start(r);
        if trim_start(a).len() == 0 {
            assert(!is_unicode_whitespace(b[0]));
            assert(trim_start(b) == b);
            assert(tr.take(17)[1] == key[1]);
            assert(b[1] == nk[1]);
        } else {
            let t = trim_start(a);
            if t.len() >= 17 {
                assert(trim_start(l).take(17) =~= tr.take(17));
            } else if t.len() == 15 {
                assert(tr[16] == nk[1]);
                assert(tr.take(17)[16] == key[16]);
            } else {
                assert(tr[t.len() as int] == '"');
                assert(tr.take(17)[t.len() as int] == key[t.len() as int]);
            }
        }
    }
}

/// Replacing a stable prefix by `<DIR>` leaves no occurrence of it and adds no
/// newline.
proof fn lemma_prefix_replaced(s: Seq<char>, prefix: Seq<char>)
    requires
        prefix.len() > 0,
        stable_prefix(prefix),
    ensures
        forall|q: int| !occurs_at(replace_all(s, prefix, dir_marker()), prefix, q),
        free_of(s, '\n') ==> free_of(replace_all(s, prefix, dir_marker()), '\n'),
    decreases s.len(),
{
    let d = dir_marker();
    let out = replace_all(s, prefix, d);
    lemma_marker_chars();
    lemma_find_from_meaning(s, prefix, 0);
    match find_first(s, prefix) {
        None => {
            lemma_replace_all_absent(s, prefix, d);
        },
        Some(m) => {
            lemma_replace_all_first(s, prefix, d, m);
            let rest = s.skip(m + prefix.len());
            lemma_prefix_replaced(rest, prefix);
            let rr = replace_all(rest, prefix, d);
            let a = s.take(m);
            assert(out =~= a + d + rr);
            assert forall|q: int| !occurs_at(out, prefix, q) by {
                if occurs_at(out, prefix, q) {
                    let e = q + prefix.len();
                    if e <= m {
                        assert(out.subrange(q, e) =~= s.subrange(q, e));
                        assert(occurs_at(s, prefix, q));
                    } else if q <= m {
                        assert(out[m] == '<');
                        assert(out.subrange(q, e)[m - q] == out[m]);
                    } else if q < m + 5 {
                        assert(out[q] == d[q - m]);
                        assert(out.subrange(q, e)[0] == out[q]);
                    } else {
                        assert(out.subrange(q, e) =~= rr.subrange(q - m - 5, e - m - 5));
                        assert(occurs_at(rr, prefix, q - m - 5));
                    }
                }
            }
            if free_of(s, '\n') {
                assert(free_of(rest, '\n')) by {
                    assert forall|i: int| 0 <= i < rest.len() implies rest[i] != '\n' by {
                        assert(rest[i] == s[i + m + prefix.len()]);
                    }
                }
                assert forall|i: int| 0 <= i < out.len() implies out[i] != '\n' by {
                    if i < m {
                        assert(out[i] == s[i]);
                    } else if i < m + 5 {
                        assert(out[i] == d[i - m]);
                    } else {
                        assert(out[i] == rr[i - m - 5]);
                    }
                }
            }
        },
    }
}

/// A pattern made of no character of `<DIR>` that does not occur in a text
/// does not occur once a prefix is replaced by `<DIR>` in it.
proof fn lemma_replace_keeps_absent(s: Seq<char>, prefix: Seq<char>, pat: Seq<char>)
    requires
        prefix.len() > 0,
        pat.len() > 0,
        forall|i: int| 0 <= i < pat.len() ==> !marker_char(#[trigger] pat[i]),
        forall|q: int| !occurs_at(s, pat, q),
    ensures
        forall|q: int| !occurs_at(replace_all(s, prefix, dir_marker()), pat, q),
    decreases s.len(),
{
    let d = dir_marker();
    let out = replace_all(s, prefix, d);
    lemma_marker_chars();
    lemma_find_from_meaning(s, prefix, 0);
    match find_first(s, prefix) {
        None => {
            lemma_replace_all_absent(s, prefix, d);
        },
        Some(m) => {
            lemma_replace_all_first(s, prefix, d, m);
            let start = m + prefix.len();
            let rest = s.skip(start);
            assert forall|q: int| !occurs_at(rest, pat, q) by {
                if occurs_at(rest, pat, q) {
                    assert(rest.subrange(q, q + pat.len()) =~= s.subrange(q + start, q + start + pat.len()));
                    assert(occurs_at(s, pat, q + start));
                }
            }
            lemma_replace_keeps_absent(rest, prefix, pat);
            let rr = replace_all(rest, prefix, d);
            assert(out =~= s.take(m) + d + rr);
            assert forall|q: int| !occurs_at(out, pat, q) by {
                if occurs_at(out, pat, q) {
                    let e = q + pat.len();
                    if e <= m {
                        assert(out.subrange(q, e) =~= s.subrange(q, e));
                        assert(occurs_at(s, pat, q));
                    } else if q < m + 5 {
                        let idx = if q < m {
                            m
                        } else {
                            q
                        };
                        assert(out[idx] == d[idx - m]);
                        assert(out.subrange(q, e)[idx - q] == out[idx]);
                        assert(marker_char(d[idx - m]));
                        assert(!marker_char(pat[idx - q]));
                    } else {
                        assert(out.subrange(q, e) =~= rr.subrange(q - m - 5, e - m - 5));
                        assert(occurs_at(rr, pat, q - m - 5));
                    }
                }
            }
        },
    }
}

/// Replacing a stable prefix cannot make a line open the dropped object.
proof fn lemma_replaced_not_opening(l: Seq<char>, prefix: Seq<char>)
    requires
        prefix.len() > 0,
        stable_prefix(prefix),
        !opens_resource_usage(l),
    ensures
        !opens_resource_usage(replace_all(l, prefix, dir_marker())),
{
    let d = dir_marker();
    let out = replace_all(l, prefix, d);
    lemma_marker_chars();
    lemma_key_chars();
    let key = resource_usage_key();
    lemma_find_from_meaning(l, prefix, 0);
    match find_first(l, prefix) {
        None => {
            lemma_replace_all_absent(l, prefix, d);
        },
        Some(m) => {
            lemma_replace_all_first(l, prefix, d, m);
            let a = l.take(m);
            let b = d + replace_all(l.skip(m + prefix.len()), prefix, d);
            assert(out =~= a + b);
            lemma_trim_start_concat(a, b);
            lemma_trim_start_concat(a, l.skip(m));
            assert(a + l.skip(m) =~= l);
            if opens_resource_usage(out) {
                let tr = trim_start(out);
                if trim_start(a).len() == 0 {
                    assert(b[0] == '<');
                    assert(trim_start(b) == b);
                    assert(tr.take(17)[0] == key[0]);
                } else {
                    let t = trim_start(a);
                    if t.len() >= 17 {
                        assert(trim_start(l).take(17) =~= tr.take(17));
                    } else {
                        assert(tr[t.len() as int] == '<');
                        assert(tr.take(17)[t.len() as int] == key[t.len() as int]);
                    }
                }
            }
        },
    }
}

/// Every line the normaliser keeps comes out settled.
proof fn lemma_normalized_line_settles(l: Seq<char>, prefix: Seq<char>)
    requires
        stable_prefix(prefix),
        free_of(l, '\n'),
        !opens_resource_usage(l),
    ensures
        settled(normalized_line(l, prefix), prefix),
{
    if find_first(l, key_needle(0)) is Some {
        lemma_rewritten_settles(l, 0, find_first(l, key_needle(0))->0, prefix);
    } else if find_first(l, key_needle(1)) is Some {
        lemma_rewritten_settles(l, 1, find_first(l, key_needle(1))->0, prefix);
    } else if find_first(l, key_needle(2)) is Some {
        lemma_rewritten_settles(l, 2, find_first(l, key_needle(2))->0, prefix);
    } else if prefix.len() > 0 {
        let out = replace_all(l, prefix, dir_marker());
        lemma_prefix_replaced(l, prefix);
        lemma_replaced_not_opening(l, prefix);
        assert forall|k: int| 0 <= k < 3 implies find_first(out, key_needle(k)) is None by {
            lemma_needle_chars(k);
            lemma_find_from_meaning(l, key_needle(k), 0);
            lemma_replace_keeps_absent(l, prefix, key_needle(k));
            lemma_find_from_meaning(out, key_needle(k), 0);
        }
        lemma_replace_all_absent(out, prefix, dir_marker());
    }
}

/// Lines that are all settled pass the normaliser unchanged.
proof fn lemma_settled_state(lines: Seq<Seq<char>>, prefix: Seq<char>)
    requires
        forall|k: int| 0 <= k < lines.len() ==> settled(#[trigger] lines[k], prefix),
    ensures
        manifest_state(lines, prefix) == (lines, false, 0int),
    decreases lines.len(),
{
    if lines.len() > 0 {
        let front = lines.drop_last();
        assert forall|k: int| 0 <= k < front.len() implies settled(#[trigger] front[k], prefix) by {
            assert(front[k] == lines[k]);
        }
        lemma_settled_state(front, prefix);
        assert(settled(lines[lines.len() - 1], prefix));
        assert(front.push(lines.last()) =~= lines);
    } else {
        assert(lines =~= Seq::<Seq<char>>::empty());
    }
}

/// The lines the normaliser keeps from lines without newlines are settled.
proof fn lemma_kept_settled(lines: Seq<Seq<char>>, prefix: Seq<char>)
    requires
        stable_prefix(prefix),
        forall|k: int| 0 <= k < lines.len() ==> free_of(#[trigger] lines[k], '\n'),
    ensures
        forall|k: int|
            0 <= k < manifest_state(lines, prefix).0.len() ==> settled(
                #[trigger] manifest_state(lines, prefix).0[k],
                prefix,
            ),
    decreases lines.len(),
{
    if lines.len() > 0 {
        let front = lines.drop_last();
        assert forall|k: int| 0 <= k < front.len() implies free_of(#[trigger] front[k], '\n') by {
            assert(front[k] == lines[k]);
        }
        lemma_kept_settled(front, prefix);
        let line = lines.last();
        assert(free_of(lines[lines.len() - 1], '\n'));
        let (kept, skipping, depth) = manifest_state(front, prefix);
        if !skipping && !opens_resource_usage(line) {
            lemma_normalized_line_settles(line, prefix);
            let pushed = kept.push(normalized_line(line, prefix));
            assert forall|k: int| 0 <= k < pushed.len() implies settled(#[trigger] pushed[k], prefix) by {
                if k < kept.len() {
                    assert(pushed[k] == kept[k]);
                }
            }
        }
    }
}

/// Normalising a normalised manifest again changes nothing, for no absolute
/// prefix or one that starts with `/` and holds no `<` or `>`.
pub proof fn lemma_normalize_idempotent(json: Seq<char>, prefix: Seq<char>)
    requires
        stable_prefix(prefix),
    ensures
        normalized_manifest(normalized_manifest(json, prefix), prefix) == normalized_manifest(json, prefix),
{
    let lines = split_on(json, '\n');
    lemma_split_pieces_free(json, '\n');
    lemma_kept_settled(lines, prefix);
    let kept = manifest_state(lines, prefix).0;
    let out = join(kept, seq!['\n']);
    if kept.len() == 0 {
        let e = Seq::<char>::empty();
        assert(out == e);
        assert(split_on(e, '\n') == seq![e]);
        lemma_find_from_meaning(e, key_needle(0), 0);
        lemma_find_from_meaning(e, key_needle(1), 0);
        lemma_find_from_meaning(e, key_needle(2), 0);
        assert(trim_start(e) == e);
        assert(settled(e, prefix));
        lemma_settled_state(seq![e], prefix);
    } else {
        lemma_split_join(kept, '\n');
        lemma_settled_state(kept, prefix);
    }
}

/// `count(text, wanted)`: the occurrences of `wanted` in `text`, as an `i32`.
pub fn count(text: &str, wanted: char) -> (n: i32)
    ensures
        n == count_of(text@, wanted) as i32,
{
    let chars = chars_of(text);
    count_chars(&chars, wanted) as i32
}

fn needle(k: usize) -> (v: Vec<char>)
    requires
        k < 3,
    ensures
        v@ == key_needle(k as int),
{
    let v = if k == 0 {
        vec!['"', 'g', 'e', 'n', 'e', 'r', 'a', 't', 'e', 'd', '_', 'a', 't', '"', ':', ' ']
    } else if k == 1 {
        vec!['"', 'g', 'i', 't', '_', 's', 'h', 'a', '"', ':', ' ']
    } else {
        vec![
            '"', 'd', 'u', 'r', 'a', 't', 'i', 'o', 'n', '_', 's', 'e', 'c', 'o', 'n', 'd', 's',
            '"', ':', ' ',
        ]
    };
    assert(v@ =~= key_needle(k as int));
    v
}

fn rewrite(line: &Vec<char>, needle: &Vec<char>, at: usize) -> (out: Vec<char>)
    requires
        at <= line@.len(),
    ensures
        out@ == rewritten(line@, needle@, at as int),
{
    let mut out: Vec<char> = Vec::new();
    let mut i: usize = 0;
    while i < at
        invariant
            i <= at <= line@.len(),
            out@ == line@.take(i as int),
        decreases at - i,
    {
        out.push(line[i]);
        i = i + 1;
        assert(out@ =~= line@.take(i as int));
    }
    extend_chars(&mut out, needle);
    let value = vec!['"', '<', 'n', 'o', 'r', 'm', 'a', 'l', 'i', 'z', 'e', 'd', '>', '"'];
    assert(value@ =~= normalized_value());
    extend_chars(&mut out, &value);
    let ghost before = out@;
    if line.len() > 0 && line[line.len() - 1] == ',' {
        out.push(',');
    }
    assert(out@ =~= rewritten(line@, needle@, at as int));
    out
}

fn normalize_line_chars(line: &Vec<char>, prefix: &Vec<char>) -> (out: Vec<char>)
    ensures
        out@ == normalized_line(line@, prefix@),
{
    let mut k: usize = 0;
    while k < 3
        invariant
            k <= 3,
            forall|q: int| 0 <= q < k ==> find_first(line@, key_needle(q)) is None,
        decreases 3 - k,
    {
        let n = needle(k);
        match find(line, &n) {
            Some(at) => {
                proof {
                    lemma_find_from_in_bounds(line@, n@, 0);
                }
                return rewrite(line, &n, at);
            },
            None => {},
        }
        k = k + 1;
    }
    if prefix.len() == 0 {
        line.clone()
    } else {
        let marker = vec!['<', 'D', 'I', 'R', '>'];
        assert(marker@ =~= dir_marker());
        replace(line, prefix, &marker)
    }
}

proof fn lemma_find_from_in_bounds(s: Seq<char>, pat: Seq<char>, i: int)
    ensures
        find_from(s, pat, i) matches Some(a) ==> i <= a && a + pat.len() <= s.len(),
    decreases s.len() + 1 - i,
{
    if !(i < 0 || i + pat.len() > s.len()) && !occurs_at(s, pat, i) {
        lemma_find_from_in_bounds(s, pat, i + 1);
    }
}

/// `normalize_line(line, absolute_prefix)`: the first of `generated_at`,
/// `git_sha`, `duration_seconds` on the line has its value replaced by
/// `"<normalized>"` (keeping the indentation and a trailing comma); a line
/// with none of them has `absolute_prefix`, when non-empty, replaced by `<DIR>`.
pub fn normalize_line(line: &str, absolute_prefix: &str) -> (out: String)
    ensures
        out@ == normalized_line(line@, absolute_prefix@),
{
    let l = chars_of(line);
    let p = chars_of(absolute_prefix);
    string_of(&normalize_line_chars(&l, &p))
}

fn opens_resource_usage_exec(line: &Vec<char>) -> (b: bool)
    ensures
        b == opens_resource_usage(line@),
{
    let k = leading_whitespace(line);
    let key = vec![
        '"', 'r', 'e', 's', 'o', 'u', 'r', 'c', 'e', '_', 'u', 's', 'a', 'g', 'e', '"', ':',
    ];
    assert(key@ =~= resource_usage_key());
    let b = matches_at(line, k, &key);
    proof {
        let t = trim_start(line@);
        if t.len() >= key@.len() {
            assert(t.take(key@.len() as int) =~= line@.subrange(k as int, k + key@.len()));
        }
    }
    b
}

proof fn lemma_split_pieces_bounded(s: Seq<char>, sep: char)
    ensures
        split_on(s, sep).len() <= s.len() + 1,
        forall|k: int|
            0 <= k < split_on(s, sep).len() ==> #[trigger] split_on(s, sep)[k].len() <= s.len(),
    decreases s.len(),
{
    if s.len() > 0 {
        lemma_split_pieces_bounded(s.drop_last(), sep);
        lemma_split_nonempty(s.drop_last(), sep);
        let pieces = split_on(s.drop_last(), sep);
        if s.last() != sep {
            let updated = pieces.update(pieces.len() - 1, pieces.last().push(s.last()));
            assert forall|k: int| 0 <= k < updated.len() implies #[trigger] updated[k].len()
                <= s.len() by {
                if k != pieces.len() - 1 {
                    assert(updated[k] == pieces[k]);
                }
            }
        } else {
            let pushed = pieces.push(Seq::<char>::empty());
            assert forall|k: int| 0 <= k < pushed.len() implies #[trigger] pushed[k].len()
                <= s.len() by {
                if k < pieces.len() {
                    assert(pushed[k] == pieces[k]);
                }
            }
        }
    }
}

/// `normalize_manifest(json, absolute_prefix)`: drops the `resource_usage`
/// object (from its key's line to the line that closes its braces), and
/// normalises every other line with [`normalize_line`].
pub fn normalize_manifest(json: &str, absolute_prefix: &str) -> (out: String)
    requires
        json@.len() <= i32::MAX,
    ensures
        out@ == normalized_manifest(json@, absolute_prefix@),
{
    let text = chars_of(json);
    let prefix = chars_of(absolute_prefix);
    let lines = split(&text, '\n');
    let ghost all = split_on(text@, '\n');
    proof {
        lemma_split_pieces_bounded(text@, '\n');
    }
    let mut kept: Vec<Vec<char>> = Vec::new();
    let mut skip_depth: i64 = 0;
    let mut skipping = false;
    let mut i: usize = 0;
    while i < lines.len()
        invariant
            i <= lines@.len(),
            lines@.len() == all.len(),
            all == split_on(text@, '\n'),
            text@ == json@,
            prefix@ == absolute_prefix@,
            text@.len() <= i32::MAX,
            all.len() <= text@.len() + 1,
            forall|k: int| 0 <= k < lines@.len() ==> #[trigger] lines@[k]@ == all[k],
            forall|k: int| 0 <= k < all.len() ==> #[trigger] all[k].len() <= text@.len(),
            manifest_state(all.take(i as int), prefix@) == (
                kept@.map_values(|v: Vec<char>| v@),
                skipping,
                skip_depth as int,
            ),
            -(i as int) * 0x8000_0000 <= skip_depth <= (i as int) * 0x8000_0000,
        decreases lines.len() - i,
    {
        let line = &lines[i];
        assert(all.take(i + 1).drop_last() =~= all.take(i as int));
        assert(all.take(i + 1).last() == all[i as int]);
        let ghost kept_before = kept@;
        if skipping {
            let opens = count_chars(line, '{') as i64;
            let closes = count_chars(line, '}') as i64;
            skip_depth = skip_depth + opens - closes;
            if skip_depth <= 0 {
                skipping = false;
            }
        } else if opens_resource_usage_exec(line) {
            let opens = count_chars(line, '{') as i64;
            let closes = count_chars(line, '}') as i64;
            let depth = opens - closes;
            if depth > 0 {
                skipping = true;
                skip_depth = depth;
            }
        } else {
            let normalized = normalize_line_chars(line, &prefix);
            kept.push(normalized);
            assert(kept@.map_values(|v: Vec<char>| v@) =~= kept_before.map_values(
                |v: Vec<char>| v@,
            ).push(normalized_line(all[i as int], prefix@)));
        }
        i = i + 1;
    }
    assert(all.take(lines.len() as int) =~= all);
    let newline = vec!['\n'];
    assert(newline@ =~= seq!['\n']);
    let joined = join_pieces(&kept, &newline);
    string_of(&joined)
}


/// The UTF-16 code units of `c`: itself below `U+10000`, else a surrogate pair.
pub open spec fn utf16_units(c: char) -> Seq<u32> {
    let u = c as u32;
    if u <= 0xFFFF {
        seq![u]
    } else {
        seq![(0xD800 + (u - 0x10000) / 0x400) as u32, (0xDC00 + (u - 0x10000) % 0x400) as u32]
    }
}

/// A code unit as `\u` and four lower-case hexadecimal digits.
pub open spec fn unit_escape(u: u32) -> Seq<char> {
    seq!['\\', 'u'] + zero_padded(hex_digits(u as nat), 4)
}

/// How `escape` writes one character: printable ASCII as itself, anything
/// else as the `\u` escapes of its UTF-16 code units.
pub open spec fn escaped_char(c: char) -> Seq<char> {
    if 0x20 <= (c as u32) && (c as u32) < 0x7f {
        seq![c]
    } else if utf16_units(c).len() == 1 {
        unit_escape(utf16_units(c)[0])
    } else {
        unit_escape(utf16_units(c)[0]) + unit_escape(utf16_units(c)[1])
    }
}

/// The escaped rendering of every character of `s`, in order.
pub open spec fn escaped(s: Seq<char>) -> Seq<char>
    decreases s.len(),
{
    if s.len() == 0 {
        Seq::<char>::empty()
    } else {
        escaped(s.drop_last()) + escaped_char(s.last())
    }
}

/// Escaping leaves only printable ASCII: every other character becomes the
/// `\u` escapes of its code units.
pub proof fn lemma_escape_printable(s: Seq<char>)
    ensures
        printable(escaped(s)),
    decreases s.len(),
{
    if s.len() > 0 {
        lemma_escape_printable(s.drop_last());
        let c = s.last();
        if !(0x20 <= (c as u32) && (c as u32) < 0x7f) {
            let units = utf16_units(c);
            lemma_unit_escape_printable(units[0]);
            if units.len() != 1 {
                lemma_unit_escape_printable(units[1]);
                lemma_concat_printable(unit_escape(units[0]), unit_escape(units[1]));
            }
        }
        lemma_concat_printable(escaped(s.drop_last()), escaped_char(c));
    }
}

pub(crate) proof fn lemma_unit_escape_printable(u: u32)
    ensures
        printable(unit_escape(u)),
{
    lemma_hex_digits_printable(u as nat);
    lemma_zero_padded_printable(hex_digits(u as nat), 4);
    lemma_concat_printable(seq!['\\', 'u'], zero_padded(hex_digits(u as nat), 4));
}

pub(crate) fn push_unit_escape(out: &mut String, u: u32)
    ensures
        final(out)@ == old(out)@ + unit_escape(u),
{
    push_char(out, '\\');
    push_char(out, 'u');
    push_hex_padded(out, u as u64, 4);
    assert(final(out)@ =~= old(out)@ + unit_escape(u));
}

/// `escape(text)`: printable ASCII kept, every other character written as the
/// `\uXXXX` escapes of its UTF-16 code units, as Java escapes them.
pub fn escape(text: &str) -> (out: String)
    ensures
        out@ == escaped(text@),
{
    let chars = chars_of(text);
    let mut out = String::new();
    let mut i: usize = 0;
    while i < chars.len()
        invariant
            i <= chars@.len(),
            chars@ == text@,
            out@ == escaped(chars@.take(i as int)),
        decreases chars.len() - i,
    {
        assert(chars@.take(i + 1).drop_last() =~= chars@.take(i as int));
        let c = chars[i];
        if 0x20 <= (c as u32) && (c as u32) < 0x7f {
            push_char(&mut out, c);
        } else {
            let u = c as u32;
            if u <= 0xFFFF {
                push_unit_escape(&mut out, u);
            } else {
                push_unit_escape(&mut out, 0xD800 + (u - 0x10000) / 0x400);
                push_unit_escape(&mut out, 0xDC00 + (u - 0x10000) % 0x400);
            }
        }
        i = i + 1;
        assert(out@ =~= escaped(chars@.take(i as int)));
    }
    assert(chars@.take(chars.len() as int) =~= chars@);
    out
}

/// One source of the git-sha row, labelled and quoted.
pub open spec fn source_part(label: Seq<char>, value: Seq<char>) -> Seq<char> {
    label + seq!['=', '"'] + escaped(value) + seq!['"']
}

/// `env:FREEROUTING_GIT_SHA`, `prop:freerouting.git.sha` and
/// `prop:FREEROUTING_GIT_SHA`.
pub open spec fn source_label(k: int) -> Seq<char> {
    if k == 0 {
        seq![
            'e', 'n', 'v', ':', 'F', 'R', 'E', 'E', 'R', 'O', 'U', 'T', 'I', 'N', 'G', '_', 'G',
            'I', 'T', '_', 'S', 'H', 'A',
        ]
    } else if k == 1 {
        seq![
            'p', 'r', 'o', 'p', ':', 'f', 'r', 'e', 'e', 'r', 'o', 'u', 't', 'i', 'n', 'g', '.',
            'g', 'i', 't', '.', 's', 'h', 'a',
        ]
    } else {
        seq![
            'p', 'r', 'o', 'p', ':', 'F', 'R', 'E', 'E', 'R', 'O', 'U', 'T', 'I', 'N', 'G', '_',
            'G', 'I', 'T', '_', 'S', 'H', 'A',
        ]
    }
}

/// The present sources, in the order environment, property, legacy property.
pub open spec fn source_parts(
    env: Option<Seq<char>>,
    prop: Option<Seq<char>>,
    legacy: Option<Seq<char>>,
) -> Seq<Seq<char>> {
    let a = if env is Some { seq![source_part(source_label(0), env->0)] } else { Seq::empty() };
    let b = if prop is Some { seq![source_part(source_label(1), prop->0)] } else { Seq::empty() };
    let c = if legacy is Some {
        seq![source_part(source_label(2), legacy->0)]
    } else {
        Seq::empty()
    };
    a + b + c
}

/// What `describe_sources` prints: `(nothing)`, or the present sources joined
/// by `|`.
pub open spec fn described_sources(
    env: Option<Seq<char>>,
    prop: Option<Seq<char>>,
    legacy: Option<Seq<char>>,
) -> Seq<char> {
    let parts = source_parts(env, prop, legacy);
    if parts.len() == 0 {
        seq!['(', 'n', 'o', 't', 'h', 'i', 'n', 'g', ')']
    } else {
        join(parts, seq!['|'])
    }
}

/// The view of an optional string.
pub open spec fn opt_view(o: Option<&str>) -> Option<Seq<char>> {
    match o {
        Some(s) => Some(s@),
        None => None,
    }
}

fn source_part_exec(k: usize, value: &str) -> (out: Vec<char>)
    requires
        k < 3,
    ensures
        out@ == source_part(source_label(k as int), value@),
{
    let mut s = String::new();
    if k == 0 {
        proof {
            reveal_strlit("env:FREEROUTING_GIT_SHA=\"");
        }
        push_str(&mut s, "env:FREEROUTING_GIT_SHA=\"");
    } else if k == 1 {
        proof {
            reveal_strlit("prop:freerouting.git.sha=\"");
        }
        push_str(&mut s, "prop:freerouting.git.sha=\"");
    } else {
        proof {
            reveal_strlit("prop:FREEROUTING_GIT_SHA=\"");
        }
        push_str(&mut s, "prop:FREEROUTING_GIT_SHA=\"");
    }
    let e = escape(value);
    push_str(&mut s, e.as_str());
    push_char(&mut s, '"');
    assert(s@ =~= source_part(source_label(k as int), value@));
    chars_of(s.as_str())
}

/// `describe_sources(env, prop, legacy_prop)`: how the git-sha row names its
/// inputs; see [`described_sources`].
pub fn describe_sources(env: Option<&str>, prop: Option<&str>, legacy_prop: Option<&str>) -> (out:
    String)
    ensures
        out@ == described_sources(opt_view(env), opt_view(prop), opt_view(legacy_prop)),
{
    let mut parts: Vec<Vec<char>> = Vec::new();
    let ghost want = source_parts(opt_view(env), opt_view(prop), opt_view(legacy_prop));
    if let Some(value) = env {
        parts.push(source_part_exec(0, value));
    }
    if let Some(value) = prop {
        parts.push(source_part_exec(1, value));
    }
    if let Some(value) = legacy_prop {
        parts.push(source_part_exec(2, value));
    }
    assert(parts@.map_values(|p: Vec<char>| p@) =~= want);
    if parts.len() == 0 {
        let mut out = String::new();
        proof {
            reveal_strlit("(nothing)");
        }
        push_str(&mut out, "(nothing)");
        return out;
    }
    let bar = vec!['|'];
    assert(bar@ =~= seq!['|']);
    string_of(&join_pieces(&parts, &bar))
}

/// `Path.of(path).getParent()` as `String.valueOf` prints it: `null` for a
/// bare name and for the root, `/` for a top-level entry, else everything
/// before the last slash of the normalised path.
pub open spec fn java_parent_text(path: Seq<char>) -> Seq<char> {
    let normalized = java_path_text(path);
    match last_index_of(normalized, '/') {
        None => seq!['n', 'u', 'l', 'l'],
        Some(i) => if i == 0 && normalized.len() == 1 {
            seq!['n', 'u', 'l', 'l']
        } else if i == 0 {
            seq!['/']
        } else {
            normalized.take(i)
        },
    }
}

/// A file name whose `changeFileExtension` meets a null parent is one whose
/// parent prints as `null`; any other has a real parent, `/` or the
/// normalised path up to its last slash (which may itself spell `null`, as
/// for `null/x`).
pub proof fn lemma_null_parent_agrees(f: Seq<char>)
    ensures
        has_null_parent(f) ==> java_parent_text(f) == seq!['n', 'u', 'l', 'l'],
        !has_null_parent(f) ==> ({
            let n = java_path_text(f);
            last_index_of(n, '/') matches Some(i) && java_parent_text(f) == (if i == 0 {
                seq!['/']
            } else {
                n.take(i)
            })
        }),
{
}

/// `java_parent(path)`: see [`java_parent_text`].
pub fn java_parent(path: &str) -> (out: String)
    ensures
        out@ == java_parent_text(path@),
{
    let chars = chars_of(path);
    let normalized = java_path_chars(&chars);
    let mut out = String::new();
    match rfind(&normalized, '/') {
        None => {
            proof {
                reveal_strlit("null");
            }
            push_str(&mut out, "null");
        },
        Some(i) => {
            if i == 0 && normalized.len() == 1 {
                proof {
                    reveal_strlit("null");
                }
                push_str(&mut out, "null");
            } else if i == 0 {
                push_char(&mut out, '/');
            } else {
                proof {
                    lemma_last_index_in_bounds(normalized@, '/');
                }
                let mut k: usize = 0;
                while k < i
                    invariant
                        k <= i < normalized@.len(),
                        out@ == normalized@.take(k as int),
                    decreases i - k,
                {
                    push_char(&mut out, normalized[k]);
                    k = k + 1;
                    assert(out@ =~= normalized@.take(k as int));
                }
            }
        },
    }
    assert(out@ =~= java_parent_text(path@));
    out
}

proof fn lemma_last_index_in_bounds(s: Seq<char>, c: char)
    ensures
        last_index_of(s, c) matches Some(i) ==> 0 <= i < s.len(),
    decreases s.len(),
{
    if s.len() > 0 && s.last() != c {
        lemma_last_index_in_bounds(s.drop_last(), c);
    }
}

/// The instant text the live manifest row is stamped with: a fixed date and
/// hour, then the seconds within the minute (two digits) and the nanoseconds
/// (nine digits).
pub open spec fn instant_text(secs: u64, nanos: u32) -> Seq<char> {
    seq!['1', '9', '7', '0', '-', '0', '1', '-', '0', '1', 'T', '0', '0', ':', '0', '0', ':']
        + zero_padded(digits((secs % 60) as nat), 2) + seq!['.'] + zero_padded(
        digits(nanos as nat),
        9,
    ) + seq!['Z']
}

/// Renders the seconds since the epoch and the sub-second nanoseconds of a
/// wall-clock reading as [`instant_text`].
pub fn format_instant(secs: u64, nanos: u32) -> (out: String)
    ensures
        out@ == instant_text(secs, nanos),
{
    let mut out = String::new();
    proof {
        reveal_strlit("1970-01-01T00:00:");
    }
    push_str(&mut out, "1970-01-01T00:00:");
    push_digits_padded(&mut out, secs % 60, 2);
    push_char(&mut out, '.');
    push_digits_padded(&mut out, nanos as u64, 9);
    push_char(&mut out, 'Z');
    assert(out@ =~= instant_text(secs, nanos));
    out
}

/// One line of a printed manifest: `MAN <label> <index, three digits>
/// <the escaped line>`.
pub open spec fn manifest_line(label: Seq<char>, index: int, line: Seq<char>) -> Seq<char> {
    seq!['M', 'A', 'N', ' '] + label + seq![' '] + zero_padded(digits(index as nat), 3) + seq![' ']
        + escaped(line)
}

/// What `emit(label, manifest)` prints for the manifest's JSON text: one
/// line per line of the text, then `MAN <label> len <byte length>`.
pub open spec fn manifest_printout(label: Seq<char>, json: Seq<char>, byte_len: nat) -> Seq<Seq<char>> {
    Seq::new(
        split_on(json, '\n').len(),
        |k: int| manifest_line(label, k, split_on(json, '\n')[k]),
    ).push(seq!['M', 'A', 'N', ' '] + label + seq![' ', 'l', 'e', 'n', ' '] + digits(byte_len))
}

/// `emit(label, manifest)`'s lines for the manifest's JSON text: see
/// [`manifest_printout`].
pub fn manifest_lines(label: &str, json: &str) -> (lines: Vec<String>)
    ensures
        lines@.map_values(|l: String| l@) == manifest_printout(
            label@,
            json@,
            encode_utf8(json@).len(),
        ),
{
    let chars = chars_of(json);
    let pieces = split(&chars, '\n');
    let ghost want = manifest_printout(label@, json@, encode_utf8(json@).len());
    let mut lines: Vec<String> = Vec::new();
    let mut i: usize = 0;
    while i < pieces.len()
        invariant
            i <= pieces@.len(),
            chars@ == json@,
            pieces@.len() == split_on(json@, '\n').len(),
            forall|k: int| 0 <= k < pieces@.len() ==> #[trigger] pieces@[k]@ == split_on(json@, '\n')[k],
            want == manifest_printout(label@, json@, encode_utf8(json@).len()),
            lines@.len() == i,
            forall|k: int| 0 <= k < i ==> #[trigger] lines@[k]@ == want[k],
        decreases pieces.len() - i,
    {
        let mut line = String::new();
        proof {
            reveal_strlit("MAN ");
        }
        push_str(&mut line, "MAN ");
        push_str(&mut line, label);
        push_char(&mut line, ' ');
        push_digits_padded(&mut line, i as u64, 3);
        push_char(&mut line, ' ');
        let piece = string_of(&pieces[i]);
        let escaped_piece = escape(piece.as_str());
        push_str(&mut line, escaped_piece.as_str());
        assert(line@ =~= manifest_line(label@, i as int, split_on(json@, '\n')[i as int]));
        lines.push(line);
        i = i + 1;
    }
    let mut last = String::new();
    proof {
        reveal_strlit("MAN ");
        reveal_strlit(" len ");
    }
    push_str(&mut last, "MAN ");
    push_str(&mut last, label);
    push_str(&mut last, " len ");
    let n = json.as_bytes().len();
    push_digits(&mut last, n as u64);
    assert(last@ =~= want.last());
    lines.push(last);
    assert(lines@.map_values(|l: String| l@) =~= want);
    lines
}

} // verus!
