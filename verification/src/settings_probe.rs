//! The settings probe: its tab-separated case table, the file specs and
//! argument strings in it, and the sorted `path=value` dump it prints.
use vstd::prelude::*;
use crate::lexical::{
    lemma_lex_asymmetric, lemma_lex_irreflexive, lemma_lex_transitive, lemma_lex_trichotomy,
    lex_less, lex_lt, texts,
};
use crate::text::{
    chars_of, decimal, is_unicode_whitespace, is_whitespace, join, last_index_of, lemma_join_split,
    lemma_split_nonempty, push_char, push_int, push_str, rfind, split, split_on, string_of,
};

verus! {

/// `line` without one trailing carriage return.
pub open spec fn strip_cr(line: Seq<char>) -> Seq<char> {
    if line.len() > 0 && line.last() == '\r' {
        line.drop_last()
    } else {
        line
    }
}

/// The lines of `s` as `str::lines` gives them: split at each `\n`, a `\r`
/// right before a `\n` dropped, and no empty line after a final `\n`.
pub open spec fn text_lines(s: Seq<char>) -> Seq<Seq<char>> {
    let p = split_on(s, '\n');
    let head = p.take(p.len() - 1).map_values(|l: Seq<char>| strip_cr(l));
    if p.last().len() == 0 {
        head
    } else {
        head.push(p.last())
    }
}

/// A line of nothing but white space.
pub open spec fn is_blank(line: Seq<char>) -> bool {
    forall|k: int| 0 <= k < line.len() ==> is_unicode_whitespace(#[trigger] line[k])
}

/// A line of the table that holds a case: not blank, not a `#` comment.
pub open spec fn is_row(line: Seq<char>) -> bool {
    !is_blank(line) && !(line.len() > 0 && line[0] == '#')
}

/// The rows among `lines`, in order.
pub open spec fn rows(lines: Seq<Seq<char>>) -> Seq<Seq<char>>
    decreases lines.len(),
{
    if lines.len() == 0 {
        lines
    } else if is_row(lines.last()) {
        rows(lines.drop_last()).push(lines.last())
    } else {
        rows(lines.drop_last())
    }
}

/// One row of the case table: its id, the three file specs, the
/// environment and argument strings, and the board recipe.
pub struct Case {
    pub id: String,
    pub dsn: String,
    pub cli_rules: String,
    pub scheduler_rules: String,
    pub env: String,
    pub argv: String,
    pub board: String,
}

/// The seven columns of a case, in table order.
pub open spec fn case_columns(c: Case) -> Seq<Seq<char>> {
    seq![c.id@, c.dsn@, c.cli_rules@, c.scheduler_rules@, c.env@, c.argv@, c.board@]
}

/// Whether every row of the table has exactly seven tab-separated columns.
pub open spec fn well_formed_table(text: Seq<char>) -> bool {
    forall|k: int|
        0 <= k < rows(text_lines(text)).len() ==> #[trigger] split_on(
            rows(text_lines(text))[k],
            '\t',
        ).len() == 7
}

fn prefix(v: &Vec<char>, n: usize) -> (out: Vec<char>)
    requires
        n <= v@.len(),
    ensures
        out@ == v@.take(n as int),
{
    let mut out: Vec<char> = Vec::new();
    let mut i: usize = 0;
    while i < n
        invariant
            i <= n,
            n <= v@.len(),
            out@ == v@.take(i as int),
        decreases n - i,
    {
        out.push(v[i]);
        i = i + 1;
        assert(out@ =~= v@.take(i as int));
    }
    out
}

/// The lines of `text`: see [`text_lines`].
pub fn lines_of(text: &str) -> (lines: Vec<Vec<char>>)
    ensures
        lines@.len() == text_lines(text@).len(),
        forall|k: int| 0 <= k < lines@.len() ==> #[trigger] lines@[k]@ == text_lines(text@)[k],
{
    let chars = chars_of(text);
    let pieces = split(&chars, '\n');
    proof {
        lemma_split_nonempty(chars@, '\n');
    }
    let ghost p = split_on(text@, '\n');
    let ghost head = p.take(p.len() - 1).map_values(|l: Seq<char>| strip_cr(l));
    let n = pieces.len();
    let mut lines: Vec<Vec<char>> = Vec::new();
    let mut i: usize = 0;
    while i + 1 < n
        invariant
            n == pieces@.len(),
            n == p.len(),
            n >= 1,
            i + 1 <= n,
            chars@ == text@,
            forall|k: int| 0 <= k < n ==> #[trigger] pieces@[k]@ == p[k],
            head == p.take(p.len() - 1).map_values(|l: Seq<char>| strip_cr(l)),
            lines@.len() == i,
            forall|k: int| 0 <= k < i ==> #[trigger] lines@[k]@ == head[k],
        decreases n - i,
    {
        let piece = &pieces[i];
        let len = piece.len();
        let line = if len > 0 && piece[len - 1] == '\r' {
            prefix(piece, len - 1)
        } else {
            prefix(piece, len)
        };
        assert(piece@.take(len as int) =~= piece@);
        assert(piece@.take(len - 1) =~= piece@.drop_last());
        lines.push(line);
        i = i + 1;
    }
    let last = &pieces[n - 1];
    if last.len() > 0 {
        let copy = prefix(last, last.len());
        assert(last@.take(last.len() as int) =~= last@);
        lines.push(copy);
    }
    lines
}

/// Whether the line is white space only.
pub fn blank(line: &Vec<char>) -> (b: bool)
    ensures
        b == is_blank(line@),
{
    let mut i: usize = 0;
    while i < line.len()
        invariant
            i <= line@.len(),
            forall|k: int| 0 <= k < i ==> is_unicode_whitespace(#[trigger] line@[k]),
        decreases line.len() - i,
    {
        if !is_whitespace(line[i]) {
            return false;
        }
        i = i + 1;
    }
    true
}

/// `read_cases`'s parse of the table's text: every row, split at its tabs
/// into a case; `None` when a row does not have seven columns.
pub fn parse_cases(text: &str) -> (r: Option<Vec<Case>>)
    ensures
        r is Some <==> well_formed_table(text@),
        r matches Some(cases) ==> {
            &&& cases@.len() == rows(text_lines(text@)).len()
            &&& forall|k: int|
                0 <= k < cases@.len() ==> #[trigger] case_columns(cases@[k]) == split_on(
                    rows(text_lines(text@))[k],
                    '\t',
                )
        },
{
    let lines = lines_of(text);
    let ghost all = text_lines(text@);
    let mut cases: Vec<Case> = Vec::new();
    let mut i: usize = 0;
    assert(all.take(0) =~= Seq::<Seq<char>>::empty());
    while i < lines.len()
        invariant
            i <= lines@.len(),
            lines@.len() == all.len(),
            all == text_lines(text@),
            forall|k: int| 0 <= k < lines@.len() ==> #[trigger] lines@[k]@ == all[k],
            cases@.len() == rows(all.take(i as int)).len(),
            forall|k: int|
                0 <= k < cases@.len() ==> #[trigger] case_columns(cases@[k]) == split_on(
                    rows(all.take(i as int))[k],
                    '\t',
                ),
            forall|k: int|
                0 <= k < rows(all.take(i as int)).len() ==> #[trigger] split_on(
                    rows(all.take(i as int))[k],
                    '\t',
                ).len() == 7,
        decreases lines.len() - i,
    {
        let line = &lines[i];
        assert(all.take(i + 1).drop_last() =~= all.take(i as int));
        let is_comment = line.len() > 0 && line[0] == '#';
        if !blank(line) && !is_comment {
            let cols = split(line, '\t');
            if cols.len() != 7 {
                proof {
                    let k = rows(all.take(i + 1)).len() - 1;
                    assert(rows(all.take(i + 1))[k] == all[i as int]);
                    lemma_rows_prefix(all, i as int + 1, lines@.len() as int);
                    assert(all.take(lines@.len() as int) =~= all);
                    assert(rows(all)[k] == all[i as int]);
                    assert(split_on(rows(all)[k], '\t').len() != 7);
                }
                return None;
            }
            let c = Case {
                id: string_of(&cols[0]),
                dsn: string_of(&cols[1]),
                cli_rules: string_of(&cols[2]),
                scheduler_rules: string_of(&cols[3]),
                env: string_of(&cols[4]),
                argv: string_of(&cols[5]),
                board: string_of(&cols[6]),
            };
            assert(case_columns(c) =~= split_on(line@, '\t'));
            cases.push(c);
        }
        i = i + 1;
    }
    assert(all.take(lines.len() as int) =~= all);
    Some(cases)
}

proof fn lemma_rows_prefix(all: Seq<Seq<char>>, i: int, n: int)
    requires
        0 <= i <= n <= all.len(),
    ensures
        rows(all.take(i)).len() <= rows(all.take(n)).len(),
        forall|k: int|
            0 <= k < rows(all.take(i)).len() ==> #[trigger] rows(all.take(n))[k] == rows(
                all.take(i),
            )[k],
    decreases n - i,
{
    if i < n {
        lemma_rows_prefix(all, i, n - 1);
        assert(all.take(n).drop_last() =~= all.take(n - 1));
    }
}

/// `s` without a leading `D:` or `F:`.
pub open spec fn unprefixed(s: Seq<char>) -> Seq<char> {
    if s.len() >= 2 && (s[0] == 'D' || s[0] == 'F') && s[1] == ':' {
        s.skip(2)
    } else {
        s
    }
}

/// The file name a spec names: the part after its last `/`, once a `D:` or
/// `F:` is taken off.
pub open spec fn base_name_of(s: Seq<char>) -> Seq<char> {
    let u = unprefixed(s);
    match last_index_of(u, '/') {
        Some(i) => u.skip(i + 1),
        None => u,
    }
}

fn suffix(v: &Vec<char>, from: usize) -> (out: String)
    requires
        from <= v@.len(),
    ensures
        out@ == v@.skip(from as int),
{
    let mut out = String::new();
    let mut i: usize = from;
    while i < v.len()
        invariant
            from <= i <= v@.len(),
            out@ == v@.subrange(from as int, i as int),
        decreases v.len() - i,
    {
        push_char(&mut out, v[i]);
        i = i + 1;
        assert(out@ =~= v@.subrange(from as int, i as int));
    }
    assert(v@.subrange(from as int, v.len() as int) =~= v@.skip(from as int));
    out
}

/// `base_name(spec)`: see [`base_name_of`].
pub fn base_name(spec: &str) -> (out: String)
    ensures
        out@ == base_name_of(spec@),
{
    let chars = chars_of(spec);
    let start: usize = if chars.len() >= 2 && (chars[0] == 'D' || chars[0] == 'F') && chars[1] == ':' {
        2
    } else {
        0
    };
    let u = if start == 2 {
        let mut u: Vec<char> = Vec::new();
        let mut i: usize = 2;
        while i < chars.len()
            invariant
                2 <= i <= chars@.len(),
                u@ == chars@.subrange(2, i as int),
            decreases chars.len() - i,
        {
            u.push(chars[i]);
            i = i + 1;
            assert(u@ =~= chars@.subrange(2, i as int));
        }
        assert(chars@.subrange(2, chars.len() as int) =~= chars@.skip(2));
        u
    } else {
        prefix(&chars, chars.len())
    };
    assert(chars@.take(chars.len() as int) =~= chars@);
    assert(u@ == unprefixed(spec@));
    match rfind(&u, '/') {
        Some(i) => suffix(&u, i + 1),
        None => suffix(&u, 0),
    }
}

/// Where a file spec points: the settings test data (`D:`), or the corpus
/// (`F:` or no prefix).
#[derive(Clone, Copy, PartialEq, Eq, Debug)]
pub enum SpecRoot {
    Data,
    Fixtures,
}

/// The root a spec points into, and the name below it.
pub open spec fn resolved(s: Seq<char>) -> (SpecRoot, Seq<char>) {
    if s.len() >= 2 && s[0] == 'D' && s[1] == ':' {
        (SpecRoot::Data, s.skip(2))
    } else if s.len() >= 2 && s[0] == 'F' && s[1] == ':' {
        (SpecRoot::Fixtures, s.skip(2))
    } else {
        (SpecRoot::Fixtures, s)
    }
}

/// `resolve(spec, ..)` without the joining: which root, and the name to
/// join to it.
pub fn resolve_spec(spec: &str) -> (r: (SpecRoot, String))
    ensures
        (r.0, r.1@) == resolved(spec@),
{
    let chars = chars_of(spec);
    if chars.len() >= 2 && chars[0] == 'D' && chars[1] == ':' {
        (SpecRoot::Data, suffix(&chars, 2))
    } else if chars.len() >= 2 && chars[0] == 'F' && chars[1] == ':' {
        (SpecRoot::Fixtures, suffix(&chars, 2))
    } else {
        let rest = suffix(&chars, 0);
        assert(chars@.skip(0) =~= chars@);
        (SpecRoot::Fixtures, rest)
    }
}

/// Whether the spec is `-`, which names no file.
pub fn names_nothing(spec: &str) -> (b: bool)
    ensures
        b == (spec@ == seq!['-']),
{
    let chars = chars_of(spec);
    let b = chars.len() == 1 && chars[0] == '-';
    proof {
        if chars.len() == 1 && chars[0] == '-' {
            assert(spec@ =~= seq!['-']);
        }
    }
    b
}

/// The arguments an argv spec holds: none for `-`, else its space-separated
/// pieces.
pub open spec fn argv_of(s: Seq<char>) -> Seq<Seq<char>> {
    if s == seq!['-'] {
        Seq::<Seq<char>>::empty()
    } else {
        split_on(s, ' ')
    }
}

/// `parse_argv(spec)`: see [`argv_of`].
pub fn parse_argv(spec: &str) -> (args: Vec<String>)
    ensures
        args@.map_values(|a: String| a@) == argv_of(spec@),
{
    if names_nothing(spec) {
        let args: Vec<String> = Vec::new();
        assert(args@.map_values(|a: String| a@) =~= argv_of(spec@));
        return args;
    }
    let chars = chars_of(spec);
    let pieces = split(&chars, ' ');
    let mut args: Vec<String> = Vec::new();
    let mut i: usize = 0;
    while i < pieces.len()
        invariant
            i <= pieces@.len(),
            pieces@.len() == split_on(spec@, ' ').len(),
            forall|k: int| 0 <= k < pieces@.len() ==> #[trigger] pieces@[k]@ == split_on(spec@, ' ')[k],
            args@.len() == i,
            forall|k: int| 0 <= k < i ==> #[trigger] args@[k]@ == pieces@[k]@,
        decreases pieces.len() - i,
    {
        args.push(string_of(&pieces[i]));
        i = i + 1;
    }
    assert(args@.map_values(|a: String| a@) =~= argv_of(spec@));
    args
}

/// The first index of `c` in `s`.
pub open spec fn first_index_of(s: Seq<char>, c: char) -> Option<int>
    decreases s.len(),
{
    if s.len() == 0 {
        None
    } else if s[0] == c {
        Some(0)
    } else {
        match first_index_of(s.drop_first(), c) {
            Some(i) => Some(i + 1),
            None => None,
        }
    }
}

proof fn lemma_first_index(s: Seq<char>, c: char, i: int)
    requires
        0 <= i <= s.len(),
        forall|k: int| 0 <= k < i ==> s[k] != c,
    ensures
        i < s.len() && s[i] == c ==> first_index_of(s, c) == Some(i),
        i == s.len() ==> first_index_of(s, c) is None,
    decreases i,
{
    if i > 0 {
        lemma_first_index(s.drop_first(), c, i - 1);
    } else if s.len() == 0 {
    }
}

/// The index of the first `c` in `s`, if any.
pub fn find_char(s: &Vec<char>, c: char) -> (r: Option<usize>)
    ensures
        r matches Some(i) ==> first_index_of(s@, c) == Some(i as int) && i < s@.len(),
        r is None ==> first_index_of(s@, c) is None,
{
    let mut i: usize = 0;
    while i < s.len()
        invariant
            i <= s@.len(),
            forall|k: int| 0 <= k < i ==> s@[k] != c,
        decreases s.len() - i,
    {
        if s[i] == c {
            proof {
                lemma_first_index(s@, c, i as int);
            }
            return Some(i);
        }
        i = i + 1;
    }
    proof {
        lemma_first_index(s@, c, i as int);
    }
    None
}

/// A pair `K=V` of an environment spec has an `=`.
pub open spec fn is_pair(p: Seq<char>) -> bool {
    first_index_of(p, '=') is Some
}

/// The key of a pair: what comes before its first `=`.
pub open spec fn pair_key(p: Seq<char>) -> Seq<char> {
    p.take(first_index_of(p, '=').unwrap())
}

/// The value of a pair: what comes after its first `=`.
pub open spec fn pair_value(p: Seq<char>) -> Seq<char> {
    p.skip(first_index_of(p, '=').unwrap() + 1)
}

/// The variables the pairs set, a later pair overriding an earlier one with
/// the same key.
pub open spec fn env_map(pairs: Seq<Seq<char>>) -> Map<Seq<char>, Seq<char>>
    decreases pairs.len(),
{
    if pairs.len() == 0 {
        Map::empty()
    } else {
        env_map(pairs.drop_last()).insert(pair_key(pairs.last()), pair_value(pairs.last()))
    }
}

/// Whether the spec can be read: `-`, or `;`-separated pairs that all have
/// an `=`.
pub open spec fn env_readable(s: Seq<char>) -> bool {
    s == seq!['-'] || forall|k: int|
        0 <= k < split_on(s, ';').len() ==> is_pair(#[trigger] split_on(s, ';')[k])
}

/// The variables an environment spec sets: none for `-`.
pub open spec fn env_of(s: Seq<char>) -> Map<Seq<char>, Seq<char>> {
    if s == seq!['-'] {
        Map::empty()
    } else {
        env_map(split_on(s, ';'))
    }
}

/// The entries as texts.
pub open spec fn entries(v: Seq<(String, String)>) -> Seq<(Seq<char>, Seq<char>)> {
    v.map_values(|e: (String, String)| (e.0@, e.1@))
}

/// Keys in strictly ascending order.
pub open spec fn keys_ascending(e: Seq<(Seq<char>, Seq<char>)>) -> bool {
    forall|i: int, j: int| 0 <= i < j < e.len() ==> lex_lt(#[trigger] e[i].0, #[trigger] e[j].0)
}

/// The entries list exactly the map: each entry is a binding of it, and each
/// key of it has an entry.
pub open spec fn lists_map(e: Seq<(Seq<char>, Seq<char>)>, m: Map<Seq<char>, Seq<char>>) -> bool {
    &&& forall|i: int|
        0 <= i < e.len() ==> m.contains_key(#[trigger] e[i].0) && m[e[i].0] == e[i].1
    &&& forall|key: Seq<char>|
        #[trigger] m.contains_key(key) ==> exists|i: int| 0 <= i < e.len() && e[i].0 == key
}

/// Sets `key` to `value` in the ascending entries.
fn set_entry(v: &mut Vec<(String, String)>, key: String, value: String, Ghost(m): Ghost<
    Map<Seq<char>, Seq<char>>,
>)
    requires
        keys_ascending(entries(old(v)@)),
        lists_map(entries(old(v)@), m),
    ensures
        keys_ascending(entries(final(v)@)),
        lists_map(entries(final(v)@), m.insert(key@, value@)),
{
    let ghost e = entries(v@);
    let mut pos: usize = 0;
    while pos < v.len() && lex_less(v[pos].0.as_str(), key.as_str())
        invariant
            pos <= v@.len(),
            e == entries(v@),
            forall|k: int| 0 <= k < pos ==> lex_lt(#[trigger] e[k].0, key@),
        decreases v.len() - pos,
    {
        pos = pos + 1;
    }
    let ghost m2 = m.insert(key@, value@);
    if pos < v.len() && v[pos].0 == key {
        v.set(pos, (key, value));
        proof {
            let e2 = entries(v@);
            assert(e2 =~= e.update(pos as int, (e[pos as int].0, value@)));
            assert forall|i: int| 0 <= i < e2.len() implies m2.contains_key(#[trigger] e2[i].0)
                && m2[e2[i].0] == e2[i].1 by {
                if i != pos {
                    if i < pos {
                        assert(lex_lt(e[i].0, e[pos as int].0));
                    } else {
                        assert(lex_lt(e[pos as int].0, e[i].0));
                    }
                    lemma_lex_irreflexive(e[i].0);
                }
            }
            assert forall|k: Seq<char>| #[trigger] m2.contains_key(k) implies exists|i: int|
                0 <= i < e2.len() && e2[i].0 == k by {
                if k == key@ {
                    assert(e2[pos as int].0 == k);
                } else {
                    let i = choose|i: int| 0 <= i < e.len() && e[i].0 == k;
                    assert(e2[i].0 == k);
                }
            }
        }
    } else {
        proof {
            if pos < e.len() {
                lemma_lex_trichotomy(key@, e[pos as int].0);
                assert(lex_lt(key@, e[pos as int].0));
            }
        }
        v.insert(pos, (key, value));
        proof {
            let e2 = entries(v@);
            assert(e2 =~= e.insert(pos as int, (key@, value@)));
            assert forall|a: int, b: int| 0 <= a < b < e2.len() implies lex_lt(
                #[trigger] e2[a].0,
                #[trigger] e2[b].0,
            ) by {
                if b < pos {
                } else if b == pos {
                } else if a < pos {
                    assert(e2[b] == e[b - 1]);
                    if b - 1 == pos {
                        lemma_lex_transitive(e[a].0, key@, e[b - 1].0);
                    } else {
                        lemma_lex_transitive(e[a].0, key@, e[pos as int].0);
                        lemma_lex_transitive(e[a].0, e[pos as int].0, e[b - 1].0);
                    }
                } else if a == pos {
                    assert(e2[b] == e[b - 1]);
                    if b - 1 > pos {
                        lemma_lex_transitive(key@, e[pos as int].0, e[b - 1].0);
                    }
                } else {
                    assert(e2[a] == e[a - 1]);
                    assert(e2[b] == e[b - 1]);
                }
            }
            assert forall|i: int| 0 <= i < e2.len() implies m2.contains_key(#[trigger] e2[i].0)
                && m2[e2[i].0] == e2[i].1 by {
                if i < pos {
                    lemma_lex_irreflexive(key@);
                    assert(e2[i] == e[i]);
                } else if i > pos {
                    assert(e2[i] == e[i - 1]);
                    if e[i - 1].0 == key@ {
                        if i - 1 == pos {
                            lemma_lex_irreflexive(key@);
                        } else {
                            lemma_lex_asymmetric(key@, e[pos as int].0);
                        }
                    }
                }
            }
            assert forall|k: Seq<char>| #[trigger] m2.contains_key(k) implies exists|i: int|
                0 <= i < e2.len() && e2[i].0 == k by {
                if k == key@ {
                    assert(e2[pos as int].0 == k);
                } else {
                    let i = choose|i: int| 0 <= i < e.len() && e[i].0 == k;
                    if i < pos {
                        assert(e2[i].0 == k);
                    } else {
                        assert(e2[i + 1].0 == k);
                    }
                }
            }
        }
    }
}

/// `parse_env(spec)`: the variables the spec sets, in ascending key order
/// (the order of a `BTreeMap`), the last pair winning for a repeated key;
/// `None` when a pair has no `=`.
pub fn parse_env(spec: &str) -> (r: Option<Vec<(String, String)>>)
    ensures
        r is Some <==> env_readable(spec@),
        r matches Some(v) ==> keys_ascending(entries(v@)) && lists_map(entries(v@), env_of(spec@)),
{
    if names_nothing(spec) {
        let v: Vec<(String, String)> = Vec::new();
        assert(entries(v@) =~= Seq::<(Seq<char>, Seq<char>)>::empty());
        return Some(v);
    }
    let chars = chars_of(spec);
    let pieces = split(&chars, ';');
    let ghost all = split_on(spec@, ';');
    let mut v: Vec<(String, String)> = Vec::new();
    let mut i: usize = 0;
    assert(all.take(0) =~= Seq::<Seq<char>>::empty());
    assert(entries(v@) =~= Seq::<(Seq<char>, Seq<char>)>::empty());
    while i < pieces.len()
        invariant
            i <= pieces@.len(),
            all == split_on(spec@, ';'),
            spec@ != seq!['-'],
            pieces@.len() == all.len(),
            forall|k: int| 0 <= k < pieces@.len() ==> #[trigger] pieces@[k]@ == all[k],
            forall|k: int| 0 <= k < i ==> is_pair(#[trigger] all[k]),
            keys_ascending(entries(v@)),
            lists_map(entries(v@), env_map(all.take(i as int))),
        decreases pieces.len() - i,
    {
        let piece = &pieces[i];
        assert(all.take(i + 1).drop_last() =~= all.take(i as int));
        match find_char(piece, '=') {
            None => {
                assert(!is_pair(all[i as int]));
                return None;
            },
            Some(at) => {
                assert(at < piece.len());
                let key = suffix_to(piece, at);
                let value = suffix(piece, at + 1);
                set_entry(&mut v, key, value, Ghost(env_map(all.take(i as int))));
            },
        }
        i = i + 1;
    }
    assert(all.take(pieces.len() as int) =~= all);
    Some(v)
}

fn suffix_to(v: &Vec<char>, to: usize) -> (out: String)
    requires
        to <= v@.len(),
    ensures
        out@ == v@.take(to as int),
{
    let chars = prefix(v, to);
    string_of(&chars)
}

/// `path=value`, or `path=null` without a value.
pub open spec fn setting_text(path: Seq<char>, value: Option<Seq<char>>) -> Seq<char> {
    path + seq!['='] + match value {
        Some(v) => v,
        None => seq!['n', 'u', 'l', 'l'],
    }
}

/// `push(lines, path, value)`: appends the `path=value` line.
pub fn push(lines: &mut Vec<String>, path: &str, value: Option<&str>)
    ensures
        texts(final(lines)@) == texts(old(lines)@).push(
            setting_text(
                path@,
                match value {
                    Some(v) => Some(v@),
                    None => None,
                },
            ),
        ),
{
    let mut line = String::new();
    push_str(&mut line, path);
    push_char(&mut line, '=');
    match value {
        Some(v) => push_str(&mut line, v),
        None => {
            proof {
                reveal_strlit("null");
            }
            push_str(&mut line, "null");
        },
    }
    assert(line@ =~= setting_text(
        path@,
        match value {
            Some(v) => Some(v@),
            None => None,
        },
    ));
    lines.push(line);
    proof {
        assert(texts(lines@) =~= texts(old(lines)@).push(
            setting_text(
                path@,
                match value {
                    Some(v) => Some(v@),
                    None => None,
                },
            ),
        ));
    }
}

/// The lines an array setting prints: `path=null` without an array, else
/// `path.length=n` and one `path[i]=value` line per element.
pub open spec fn slice_texts(path: Seq<char>, values: Option<Seq<Seq<char>>>) -> Seq<Seq<char>> {
    match values {
        None => seq![setting_text(path, None)],
        Some(vals) => seq![
            path + seq!['.', 'l', 'e', 'n', 'g', 't', 'h', '='] + decimal(vals.len() as int),
        ] + Seq::new(
            vals.len(),
            |i: int| setting_text(path + seq!['['] + decimal(i) + seq![']'], Some(vals[i])),
        ),
    }
}

/// `push_slice(lines, path, values)`: appends the lines of an array
/// setting; see [`slice_texts`].
pub fn push_slice(lines: &mut Vec<String>, path: &str, values: Option<&Vec<String>>)
    requires
        values matches Some(vals) ==> vals@.len() <= i64::MAX,
    ensures
        texts(final(lines)@) == texts(old(lines)@) + slice_texts(
            path@,
            match values {
                Some(vals) => Some(texts(vals@)),
                None => None,
            },
        ),
{
    match values {
        None => {
            push(lines, path, None);
            assert(texts(lines@) =~= texts(old(lines)@) + slice_texts(path@, None));
        },
        Some(vals) => {
            let ghost want = slice_texts(path@, Some(texts(vals@)));
            let mut head = String::new();
            push_str(&mut head, path);
            proof {
                reveal_strlit(".length=");
            }
            push_str(&mut head, ".length=");
            push_int(&mut head, vals.len() as i64);
            assert(head@ =~= want[0]);
            lines.push(head);
            assert(want.take(1) =~= seq![want[0]]);
            assert(texts(lines@) =~= texts(old(lines)@) + want.take(1));
            let mut i: usize = 0;
            while i < vals.len()
                invariant
                    i <= vals@.len(),
                    vals@.len() <= i64::MAX,
                    want == slice_texts(path@, Some(texts(vals@))),
                    want.len() == vals@.len() + 1,
                    texts(lines@) == texts(old(lines)@) + want.take(i + 1),
                decreases vals.len() - i,
            {
                let mut name = String::new();
                push_str(&mut name, path);
                push_char(&mut name, '[');
                push_int(&mut name, i as i64);
                push_char(&mut name, ']');
                assert(name@ =~= path@ + seq!['['] + decimal(i as int) + seq![']']);
                assert(want[i + 1] == setting_text(name@, Some(vals@[i as int]@)));
                push(lines, name.as_str(), Some(vals[i].as_str()));
                assert(want.take(i + 2) =~= want.take(i + 1).push(want[i + 1]));
                i = i + 1;
            }
            assert(want.take(vals.len() + 1) =~= want);
        },
    }
}

/// `String.valueOf(boolean)`.
pub fn java_bool(b: bool) -> (r: &'static str)
    ensures
        r@ == (if b {
            seq!['t', 'r', 'u', 'e']
        } else {
            seq!['f', 'a', 'l', 's', 'e']
        }),
{
    proof {
        reveal_strlit("true");
        reveal_strlit("false");
    }
    if b {
        "true"
    } else {
        "false"
    }
}

/// The arguments of an argv spec other than `-`, joined with single spaces,
/// give back the spec.
pub proof fn lemma_argv_rejoins(s: Seq<char>)
    requires
        s != seq!['-'],
    ensures
        join(argv_of(s), seq![' ']) == s,
{
    lemma_join_split(s, ' ');
}

/// A later pair of an environment spec overrides every earlier pair with
/// its key, and leaves the other keys as they were.
pub proof fn lemma_later_pair_wins(pairs: Seq<Seq<char>>, last: Seq<char>, key: Seq<char>)
    ensures
        env_map(pairs.push(last)).contains_key(pair_key(last)),
        env_map(pairs.push(last))[pair_key(last)] == pair_value(last),
        key != pair_key(last) ==> (env_map(pairs.push(last)).contains_key(key) == env_map(
            pairs,
        ).contains_key(key)) && env_map(pairs.push(last))[key] == env_map(pairs)[key],
{
    assert(pairs.push(last).drop_last() =~= pairs);
}

/// Ascending keys pin a listing down: two ascending listings of one map are
/// the same.
pub proof fn lemma_listing_unique(
    e1: Seq<(Seq<char>, Seq<char>)>,
    e2: Seq<(Seq<char>, Seq<char>)>,
    m: Map<Seq<char>, Seq<char>>,
)
    requires
        keys_ascending(e1),
        keys_ascending(e2),
        lists_map(e1, m),
        lists_map(e2, m),
    ensures
        e1 == e2,
    decreases e1.len() + e2.len(),
{
    if e1.len() == 0 || e2.len() == 0 {
        if e1.len() > 0 {
            assert(m.contains_key(e1[0].0));
        }
        if e2.len() > 0 {
            assert(m.contains_key(e2[0].0));
        }
        assert(e1 =~= e2);
    } else {
        let k1 = e1.last().0;
        let k2 = e2.last().0;
        assert(m.contains_key(k1));
        assert(m.contains_key(k2));
        let i2 = choose|i: int| 0 <= i < e2.len() && e2[i].0 == k1;
        let i1 = choose|i: int| 0 <= i < e1.len() && e1[i].0 == k2;
        if k1 != k2 {
            lemma_lex_trichotomy(k1, k2);
            if lex_lt(k1, k2) {
                if i1 < e1.len() - 1 {
                    lemma_lex_asymmetric(k2, k1);
                } else {
                    lemma_lex_irreflexive(k1);
                }
            } else {
                if i2 < e2.len() - 1 {
                    lemma_lex_asymmetric(k1, k2);
                } else {
                    lemma_lex_irreflexive(k2);
                }
            }
        }
        assert(k1 == k2);
        let m2 = m.remove(k1);
        let f1 = e1.drop_last();
        let f2 = e2.drop_last();
        assert forall|i: int| 0 <= i < f1.len() implies m2.contains_key(#[trigger] f1[i].0)
            && m2[f1[i].0] == f1[i].1 by {
            assert(lex_lt(e1[i].0, k1));
            lemma_lex_irreflexive(k1);
        }
        assert forall|i: int| 0 <= i < f2.len() implies m2.contains_key(#[trigger] f2[i].0)
            && m2[f2[i].0] == f2[i].1 by {
            assert(lex_lt(e2[i].0, k2));
            lemma_lex_irreflexive(k2);
        }
        assert forall|key: Seq<char>| #[trigger] m2.contains_key(key) implies exists|i: int|
            0 <= i < f1.len() && f1[i].0 == key by {
            let i = choose|i: int| 0 <= i < e1.len() && e1[i].0 == key;
            assert(f1[i].0 == key);
        }
        assert forall|key: Seq<char>| #[trigger] m2.contains_key(key) implies exists|i: int|
            0 <= i < f2.len() && f2[i].0 == key by {
            let i = choose|i: int| 0 <= i < e2.len() && e2[i].0 == key;
            assert(f2[i].0 == key);
        }
        lemma_listing_unique(f1, f2, m2);
        assert(e1.last() == e2.last());
        assert(e1 =~= f1.push(e1.last()));
        assert(e2 =~= f2.push(e2.last()));
    }
}

} // verus!
