//! The job-model probe's helpers: `Path.of(s).toString()` normalisation,
//! the null-parent test, the byte-spec decoder, and the renderings of bytes,
//! strings and machine-specific paths in its tables.
use vstd::prelude::*;
use crate::manifest::{lemma_unit_escape_printable, push_unit_escape, unit_escape, utf16_units};
use crate::text::{
    chars_of, digits, extend_chars, hex2, hex_digits, join, join_pieces, last_index_of, push_char,
    push_digits, push_hex2, push_str, replace_any, replaced, rfind, same_chars,
    split, split_on, string_of, zero_padded, printable, lemma_hex_digits_printable,
    lemma_zero_padded_printable, lemma_concat_printable, free_of, lemma_join_first,
    lemma_split_join, lemma_split_leading_separator, hex_digit_char, lemma_split_pieces_free,
};

verus! {

/// The non-empty pieces of `pieces`, in order.
pub open spec fn nonempty_pieces(pieces: Seq<Seq<char>>) -> Seq<Seq<char>>
    decreases pieces.len(),
{
    if pieces.len() == 0 {
        pieces
    } else if pieces.last().len() > 0 {
        nonempty_pieces(pieces.drop_last()).push(pieces.last())
    } else {
        nonempty_pieces(pieces.drop_last())
    }
}

/// `Path.of(s).toString()`: the non-empty `/`-separated segments joined by
/// single slashes, with a leading slash kept for an absolute path; `/` for
/// the root and the empty string for no segment at all.
pub open spec fn java_path_text(s: Seq<char>) -> Seq<char> {
    let segments = nonempty_pieces(split_on(s, '/'));
    let absolute = s.len() > 0 && s[0] == '/';
    if segments.len() == 0 {
        if absolute { seq!['/'] } else { Seq::<char>::empty() }
    } else if absolute {
        seq!['/'] + join(segments, seq!['/'])
    } else {
        join(segments, seq!['/'])
    }
}

/// The normalised path of the characters `s`.
pub fn java_path_chars(s: &Vec<char>) -> (out: Vec<char>)
    ensures
        out@ == java_path_text(s@),
{
    let pieces = split(s, '/');
    let ghost all = split_on(s@, '/');
    let mut kept: Vec<Vec<char>> = Vec::new();
    let mut i: usize = 0;
    while i < pieces.len()
        invariant
            i <= pieces@.len() == all.len(),
            forall|k: int| 0 <= k < pieces@.len() ==> #[trigger] pieces@[k]@ == all[k],
            kept@.map_values(|p: Vec<char>| p@) == nonempty_pieces(all.take(i as int)),
        decreases pieces.len() - i,
    {
        assert(all.take(i + 1).drop_last() =~= all.take(i as int));
        let ghost before = kept@;
        if pieces[i].len() > 0 {
            kept.push(pieces[i].clone());
            assert(kept@.map_values(|p: Vec<char>| p@) =~= before.map_values(|p: Vec<char>| p@).push(
                all[i as int],
            ));
        }
        i = i + 1;
    }
    assert(all.take(pieces.len() as int) =~= all);
    let absolute = s.len() > 0 && s[0] == '/';
    if kept.len() == 0 {
        if absolute {
            let v = vec!['/'];
            assert(v@ =~= seq!['/']);
            v
        } else {
            Vec::new()
        }
    } else {
        let slash = vec!['/'];
        assert(slash@ =~= seq!['/']);
        let joined = join_pieces(&kept, &slash);
        if absolute {
            let mut out = vec!['/'];
            extend_chars(&mut out, &joined);
            assert(out@ =~= seq!['/'] + joined@);
            out
        } else {
            joined
        }
    }
}

/// `normalize_java_path(s)`: `Path.of(s).toString()`.
pub fn normalize_java_path(s: &str) -> (out: String)
    ensures
        out@ == java_path_text(s@),
{
    let chars = chars_of(s);
    string_of(&java_path_chars(&chars))
}

/// Pieces that are all non-empty are kept as they are.
proof fn lemma_nonempty_kept(pieces: Seq<Seq<char>>)
    requires
        forall|k: int| 0 <= k < pieces.len() ==> #[trigger] pieces[k].len() > 0,
    ensures
        nonempty_pieces(pieces) == pieces,
    decreases pieces.len(),
{
    if pieces.len() > 0 {
        let front = pieces.drop_last();
        assert forall|k: int| 0 <= k < front.len() implies #[trigger] front[k].len() > 0 by {
            assert(front[k] == pieces[k]);
        }
        lemma_nonempty_kept(front);
        assert(pieces.last() == pieces[pieces.len() - 1]);
        assert(front.push(pieces.last()) =~= pieces);
    }
}

/// A leading empty piece is dropped.
proof fn lemma_nonempty_leading_empty(pieces: Seq<Seq<char>>)
    ensures
        nonempty_pieces(seq![Seq::<char>::empty()] + pieces) == nonempty_pieces(pieces),
    decreases pieces.len(),
{
    let e = Seq::<char>::empty();
    let whole = seq![e] + pieces;
    if pieces.len() == 0 {
        assert(whole =~= seq![e]);
        assert(whole.last() == e);
        assert(whole.drop_last() =~= Seq::<Seq<char>>::empty());
        assert(nonempty_pieces(whole) == nonempty_pieces(whole.drop_last()));
        assert(pieces =~= Seq::<Seq<char>>::empty());
    } else {
        lemma_nonempty_leading_empty(pieces.drop_last());
        assert(whole.drop_last() =~= seq![e] + pieces.drop_last());
        assert(whole.last() == pieces.last());
        if pieces.last().len() > 0 {
            assert(nonempty_pieces(whole) == nonempty_pieces(whole.drop_last()).push(whole.last()));
        } else {
            assert(nonempty_pieces(whole) == nonempty_pieces(whole.drop_last()));
        }
    }
}

/// The pieces kept are non-empty, and free of a character where all pieces
/// were.
proof fn lemma_nonempty_pieces_free(pieces: Seq<Seq<char>>, c: char)
    requires
        forall|k: int| 0 <= k < pieces.len() ==> free_of(#[trigger] pieces[k], c),
    ensures
        forall|k: int|
            0 <= k < nonempty_pieces(pieces).len() ==> #[trigger] nonempty_pieces(pieces)[k].len()
                > 0 && free_of(nonempty_pieces(pieces)[k], c),
    decreases pieces.len(),
{
    if pieces.len() > 0 {
        let front = pieces.drop_last();
        assert forall|k: int| 0 <= k < front.len() implies free_of(#[trigger] front[k], c) by {
            assert(front[k] == pieces[k]);
        }
        lemma_nonempty_pieces_free(front, c);
        assert(free_of(pieces[pieces.len() - 1], c));
        let kept = nonempty_pieces(front);
        let all = nonempty_pieces(pieces);
        if pieces.last().len() > 0 {
            assert(all == kept.push(pieces.last()));
            assert forall|k: int| 0 <= k < all.len() implies #[trigger] all[k].len() > 0 && free_of(
                all[k],
                c,
            ) by {
                if k < kept.len() {
                    assert(all[k] == kept[k]);
                } else {
                    assert(all[k] == pieces[pieces.len() - 1]);
                }
            }
        } else {
            assert(all == kept);
        }
    }
}

/// Normalising a path twice changes nothing: `Path.of(Path.of(s).toString())`
/// prints as `Path.of(s)` does.
pub proof fn lemma_java_path_idempotent(s: Seq<char>)
    ensures
        java_path_text(java_path_text(s)) == java_path_text(s),
{
    let c = '/';
    let e = Seq::<char>::empty();
    let segments = nonempty_pieces(split_on(s, c));
    lemma_split_pieces_free(s, c);
    lemma_nonempty_pieces_free(split_on(s, c), c);
    let n = java_path_text(s);
    if segments.len() == 0 {
        if s.len() > 0 && s[0] == '/' {
            assert(n == seq!['/']);
            lemma_split_leading_separator(e, c);
            assert(seq!['/'] + e =~= seq!['/']);
            assert(split_on(e, c) == seq![e]);
            assert(seq![e].drop_last() =~= Seq::<Seq<char>>::empty());
            assert(seq![e].last() == e);
            assert(nonempty_pieces(seq![e]) == nonempty_pieces(Seq::<Seq<char>>::empty()));
            assert(nonempty_pieces(seq![e]) =~= Seq::<Seq<char>>::empty());
            lemma_nonempty_leading_empty(seq![e]);
        } else {
            assert(n =~= e);
            assert(split_on(e, c) == seq![e]);
            assert(seq![e].drop_last() =~= Seq::<Seq<char>>::empty());
            assert(seq![e].last() == e);
            assert(nonempty_pieces(seq![e]) == nonempty_pieces(Seq::<Seq<char>>::empty()));
        }
    } else {
        let j = join(segments, seq![c]);
        lemma_split_join(segments, c);
        lemma_nonempty_kept(segments);
        lemma_join_first(segments, seq![c]);
        assert(segments[0][0] != c);
        if s.len() > 0 && s[0] == '/' {
            assert(n == seq!['/'] + j);
            lemma_split_leading_separator(j, c);
            lemma_nonempty_leading_empty(split_on(j, c));
        } else {
            assert(n == j);
        }
    }
}

/// Whether `s` holds two slashes in a row.
pub open spec fn has_double_slash(s: Seq<char>) -> bool {
    exists|k: int| 0 <= k < s.len() - 1 && s[k] == '/' && #[trigger] s[k + 1] == '/'
}

/// Non-empty pieces without a slash, joined by single slashes, neither start
/// nor end with a slash, and hold no two in a row.
proof fn lemma_join_clean(pieces: Seq<Seq<char>>)
    requires
        pieces.len() >= 1,
        forall|k: int|
            0 <= k < pieces.len() ==> #[trigger] pieces[k].len() > 0 && free_of(pieces[k], '/'),
    ensures
        join(pieces, seq!['/']).len() >= 1,
        join(pieces, seq!['/'])[0] != '/',
        join(pieces, seq!['/']).last() != '/',
        !has_double_slash(join(pieces, seq!['/'])),
    decreases pieces.len(),
{
    let j = join(pieces, seq!['/']);
    lemma_join_first(pieces, seq!['/']);
    assert(pieces[0][0] != '/') by {
        assert(free_of(pieces[0], '/'));
    }
    let last = pieces.last();
    assert(pieces.last() == pieces[pieces.len() - 1]);
    assert(last.len() > 0 && free_of(last, '/'));
    if pieces.len() == 1 {
        assert(j == pieces[0]);
        assert(j.last() == j[j.len() - 1]);
    } else {
        let front = pieces.drop_last();
        assert forall|k: int| 0 <= k < front.len() implies #[trigger] front[k].len() > 0 && free_of(
            front[k],
            '/',
        ) by {
            assert(front[k] == pieces[k]);
        }
        lemma_join_clean(front);
        let f = join(front, seq!['/']);
        assert(j == f + seq!['/'] + last);
        assert(j.last() == last[last.len() - 1]);
        if has_double_slash(j) {
            let k = choose|k: int| 0 <= k < j.len() - 1 && j[k] == '/' && #[trigger] j[k + 1] == '/';
            if k + 1 < f.len() {
                assert(j[k] == f[k] && j[k + 1] == f[k + 1]);
                assert(has_double_slash(f));
            } else if k + 1 == f.len() {
                assert(j[k] == f.last());
            } else if k == f.len() {
                assert(j[k + 1] == last[0]);
            } else {
                assert(j[k] == last[k - f.len() - 1]);
            }
        }
    }
}

/// A normalised path holds no two slashes in a row, ends with a slash only
/// where it is the root, and starts with a slash exactly where the path did.
pub proof fn lemma_java_path_clean(s: Seq<char>)
    ensures
        !has_double_slash(java_path_text(s)),
        java_path_text(s).len() > 0 && java_path_text(s).last() == '/' ==> java_path_text(s)
            == seq!['/'],
        (java_path_text(s).len() > 0 && java_path_text(s)[0] == '/') == (s.len() > 0 && s[0]
            == '/'),
{
    let segments = nonempty_pieces(split_on(s, '/'));
    lemma_split_pieces_free(s, '/');
    lemma_nonempty_pieces_free(split_on(s, '/'), '/');
    let n = java_path_text(s);
    if segments.len() > 0 {
        lemma_join_clean(segments);
        let j = join(segments, seq!['/']);
        if s.len() > 0 && s[0] == '/' {
            assert(n == seq!['/'] + j);
            assert(n.last() == j.last());
            if has_double_slash(n) {
                let k = choose|k: int| 0 <= k < n.len() - 1 && n[k] == '/' && #[trigger] n[k + 1] == '/';
                if k == 0 {
                    assert(n[1] == j[0]);
                } else {
                    let k2 = k - 1;
                    assert(n[k] == j[k2] && n[k + 1] == j[k2 + 1]);
                    assert(0 <= k2 < j.len() - 1 && j[k2] == '/' && j[k2 + 1] == '/');
                    assert(has_double_slash(j));
                }
            }
        }
    } else {
        if has_double_slash(n) {
            let k = choose|k: int| 0 <= k < n.len() - 1 && n[k] == '/' && #[trigger] n[k + 1] == '/';
        }
    }
}

/// Whether `Path.of(filename).getParent()` is null: the normalised path has no
/// slash, or is the root itself.
pub open spec fn has_null_parent(filename: Seq<char>) -> bool {
    let normalized = java_path_text(filename);
    match last_index_of(normalized, '/') {
        None => true,
        Some(i) => i == 0 && normalized.len() == 1,
    }
}

/// `java_change_file_extension_npes(filename)`: whether Java's
/// `changeFileExtension` dereferences a null parent for this file name.
pub fn java_change_file_extension_npes(filename: &str) -> (b: bool)
    ensures
        b == has_null_parent(filename@),
{
    let chars = chars_of(filename);
    let normalized = java_path_chars(&chars);
    match rfind(&normalized, '/') {
        None => true,
        Some(i) => i == 0 && normalized.len() == 1,
    }
}

/// How one character is written inside a quoted string: `"` and `\` behind
/// a backslash, a control or non-ASCII character as one `\u` escape of four
/// hexadecimal digits per UTF-16 code unit (two for a character above
/// `U+FFFF`), as Java writes its `char`s, anything else as itself.
pub open spec fn quoted_char(c: char) -> Seq<char> {
    if c == '"' || c == '\\' {
        seq!['\\', c]
    } else if (c as u32) < 0x20 || (c as u32) > 0x7e {
        if utf16_units(c).len() == 1 {
            unit_escape(utf16_units(c)[0])
        } else {
            unit_escape(utf16_units(c)[0]) + unit_escape(utf16_units(c)[1])
        }
    } else {
        seq![c]
    }
}

/// The quoted rendering of every character of `s`, in order.
pub open spec fn quoted_body(s: Seq<char>) -> Seq<char>
    decreases s.len(),
{
    if s.len() == 0 {
        Seq::<char>::empty()
    } else {
        quoted_body(s.drop_last()) + quoted_char(s.last())
    }
}

/// Quoting shows every character as printable ASCII, so a trailing space,
/// a control character or a non-ASCII character can be seen in the output.
pub proof fn lemma_quote_printable(s: Seq<char>)
    ensures
        printable(seq!['"'] + quoted_body(s) + seq!['"']),
    decreases s.len(),
{
    lemma_quoted_body_printable(s);
    lemma_concat_printable(seq!['"'], quoted_body(s));
    lemma_concat_printable(seq!['"'] + quoted_body(s), seq!['"']);
}

proof fn lemma_quoted_body_printable(s: Seq<char>)
    ensures
        printable(quoted_body(s)),
    decreases s.len(),
{
    if s.len() > 0 {
        lemma_quoted_body_printable(s.drop_last());
        let c = s.last();
        if c == '"' || c == '\\' {
        } else if (c as u32) < 0x20 || (c as u32) > 0x7e {
            let units = utf16_units(c);
            lemma_unit_escape_printable(units[0]);
            if units.len() == 2 {
                lemma_unit_escape_printable(units[1]);
                lemma_concat_printable(unit_escape(units[0]), unit_escape(units[1]));
            }
        }
        lemma_concat_printable(quoted_body(s.drop_last()), quoted_char(c));
    }
}

/// `quote(s)`: `s` between double quotes, escaped so that a trailing space
/// or a control character shows.
pub fn quote(s: &str) -> (out: String)
    ensures
        out@ == seq!['"'] + quoted_body(s@) + seq!['"'],
{
    let chars = chars_of(s);
    let mut out = String::new();
    push_char(&mut out, '"');
    let mut i: usize = 0;
    while i < chars.len()
        invariant
            i <= chars@.len(),
            chars@ == s@,
            out@ == seq!['"'] + quoted_body(chars@.take(i as int)),
        decreases chars.len() - i,
    {
        assert(chars@.take(i + 1).drop_last() =~= chars@.take(i as int));
        let c = chars[i];
        if c == '"' || c == '\\' {
            push_char(&mut out, '\\');
            push_char(&mut out, c);
        } else if (c as u32) < 0x20 || (c as u32) > 0x7e {
            let u = c as u32;
            if u <= 0xFFFF {
                push_unit_escape(&mut out, u);
            } else {
                push_unit_escape(&mut out, 0xD800 + (u - 0x10000) / 0x400);
                push_unit_escape(&mut out, 0xDC00 + (u - 0x10000) % 0x400);
            }
        } else {
            push_char(&mut out, c);
        }
        i = i + 1;
        assert(out@ =~= seq!['"'] + quoted_body(chars@.take(i as int)));
    }
    assert(chars@.take(chars.len() as int) =~= chars@);
    push_char(&mut out, '"');
    out
}

/// Every byte of `b` as two lower-case hexadecimal digits.
pub open spec fn hex_bytes(b: Seq<u8>) -> Seq<char>
    decreases b.len(),
{
    if b.len() == 0 {
        Seq::<char>::empty()
    } else {
        hex_bytes(b.drop_last()) + hex2(b.last())
    }
}

/// Appends every byte of `b` in hexadecimal.
pub fn push_hex_bytes(out: &mut String, b: &[u8], n: usize)
    requires
        n <= b@.len(),
    ensures
        final(out)@ == old(out)@ + hex_bytes(b@.take(n as int)),
{
    let mut i: usize = 0;
    while i < n
        invariant
            i <= n <= b@.len(),
            out@ == old(out)@ + hex_bytes(b@.take(i as int)),
        decreases n - i,
    {
        assert(b@.take(i + 1).drop_last() =~= b@.take(i as int));
        push_hex2(out, b[i]);
        i = i + 1;
        assert(out@ =~= old(out)@ + hex_bytes(b@.take(i as int)));
    }
}

/// The table rendering of a byte string: `-` when empty, else the hex of its
/// first 64 bytes followed by `+` and the number of bytes left out, if any.
pub open spec fn capped_hex(b: Seq<u8>) -> Seq<char> {
    if b.len() == 0 {
        seq!['-']
    } else if b.len() <= 64 {
        hex_bytes(b)
    } else {
        hex_bytes(b.take(64)) + seq!['+'] + digits((b.len() - 64) as nat)
    }
}

/// `hex(b)`: see [`capped_hex`].
pub fn hex(b: &[u8]) -> (out: String)
    ensures
        out@ == capped_hex(b@),
{
    let mut out = String::new();
    if b.len() == 0 {
        push_char(&mut out, '-');
        return out;
    }
    let n = if b.len() < 64 { b.len() } else { 64 };
    push_hex_bytes(&mut out, b, n);
    if b.len() > n {
        push_char(&mut out, '+');
        push_digits(&mut out, (b.len() - n) as u64);
    } else {
        assert(b@.take(n as int) =~= b@);
    }
    out
}

/// The four machine-specific values the probe replaces in what it prints.
pub struct Ctx {
    pub cwd: String,
    pub cwd_basename: String,
    pub fixtures_dir: String,
    pub scratch_dir: String,
}

/// `<SCRATCH>`, `<FIXTURES>`, `<CWD>` and `<CWD-BASENAME>`.
pub open spec fn marker(k: int) -> Seq<char> {
    if k == 0 {
        seq!['<', 'S', 'C', 'R', 'A', 'T', 'C', 'H', '>']
    } else if k == 1 {
        seq!['<', 'F', 'I', 'X', 'T', 'U', 'R', 'E', 'S', '>']
    } else if k == 2 {
        seq!['<', 'C', 'W', 'D', '>']
    } else {
        seq!['<', 'C', 'W', 'D', '-', 'B', 'A', 'S', 'E', 'N', 'A', 'M', 'E', '>']
    }
}

/// `s` with the scratch directory, the fixtures directory and the working
/// directory replaced by their markers, in that order; a result equal to
/// the working directory's base name becomes `<CWD-BASENAME>`.
pub open spec fn normed(
    cwd: Seq<char>,
    cwd_basename: Seq<char>,
    fixtures_dir: Seq<char>,
    scratch_dir: Seq<char>,
    s: Seq<char>,
) -> Seq<char> {
    let a = replaced(s, scratch_dir, marker(0));
    let b = replaced(a, fixtures_dir, marker(1));
    let c = replaced(b, cwd, marker(2));
    if c == cwd_basename { marker(3) } else { c }
}

/// `norm(ctx, s)`: see [`normed`].
pub fn norm(ctx: &Ctx, s: &str) -> (out: String)
    ensures
        out@ == normed(ctx.cwd@, ctx.cwd_basename@, ctx.fixtures_dir@, ctx.scratch_dir@, s@),
{
    let text = chars_of(s);
    let scratch = chars_of(ctx.scratch_dir.as_str());
    let fixtures = chars_of(ctx.fixtures_dir.as_str());
    let cwd = chars_of(ctx.cwd.as_str());
    let base = chars_of(ctx.cwd_basename.as_str());
    let m0 = vec!['<', 'S', 'C', 'R', 'A', 'T', 'C', 'H', '>'];
    let m1 = vec!['<', 'F', 'I', 'X', 'T', 'U', 'R', 'E', 'S', '>'];
    let m2 = vec!['<', 'C', 'W', 'D', '>'];
    assert(m0@ =~= marker(0));
    assert(m1@ =~= marker(1));
    assert(m2@ =~= marker(2));
    let a = replace_any(&text, &scratch, &m0);
    let b = replace_any(&a, &fixtures, &m1);
    let c = replace_any(&b, &cwd, &m2);
    if same_chars(&c, &base) {
        let m3 = vec!['<', 'C', 'W', 'D', '-', 'B', 'A', 'S', 'E', 'N', 'A', 'M', 'E', '>'];
        assert(m3@ =~= marker(3));
        string_of(&m3)
    } else {
        string_of(&c)
    }
}


/// The byte an escaped character stands for: `\n`, `\r`, `\t`, or the
/// character's code point truncated to its low byte.
pub open spec fn escape_byte(c: char) -> u8 {
    if c == 'n' {
        10
    } else if c == 'r' {
        13
    } else if c == 't' {
        9
    } else {
        c as u8
    }
}

/// The bytes of an `s:` body: a backslash and the character after it give one
/// escaped byte; any other character gives its code point's low byte.
pub open spec fn unescaped(cs: Seq<char>) -> Seq<u8>
    decreases cs.len(),
{
    if cs.len() == 0 {
        Seq::<u8>::empty()
    } else if cs[0] == '\\' && cs.len() >= 2 {
        seq![escape_byte(cs[1])] + unescaped(cs.skip(2))
    } else {
        seq![cs[0] as u8] + unescaped(cs.drop_first())
    }
}

/// Whether `c` is an ASCII hexadecimal digit.
pub open spec fn is_hex_digit(c: char) -> bool {
    ('0' <= c <= '9') || ('a' <= c <= 'f') || ('A' <= c <= 'F')
}

/// The value of an ASCII hexadecimal digit.
pub open spec fn hex_value(c: char) -> int {
    if '0' <= c <= '9' {
        c as int - '0' as int
    } else if 'a' <= c <= 'f' {
        c as int - 'a' as int + 10
    } else {
        c as int - 'A' as int + 10
    }
}

/// Whether two characters parse as a byte in base 16 (`u8::from_str_radix`):
/// two digits, or a `+` sign and one digit.
pub open spec fn pair_parses(a: char, b: char) -> bool {
    is_hex_digit(b) && (is_hex_digit(a) || a == '+')
}

/// The byte two such characters parse to.
pub open spec fn pair_value(a: char, b: char) -> u8 {
    if a == '+' {
        hex_value(b) as u8
    } else {
        (hex_value(a) * 16 + hex_value(b)) as u8
    }
}

/// `cs` without its spaces.
pub open spec fn without_spaces(cs: Seq<char>) -> Seq<char>
    decreases cs.len(),
{
    if cs.len() == 0 {
        cs
    } else if cs.last() == ' ' {
        without_spaces(cs.drop_last())
    } else {
        without_spaces(cs.drop_last()).push(cs.last())
    }
}

/// Whether an `h:` body decodes: its non-space characters are ASCII and each
/// whole pair of them parses as a byte.
pub open spec fn hex_body_parses(body: Seq<char>) -> bool {
    let clean = without_spaces(body);
    &&& forall|k: int| 0 <= k < clean.len() ==> (#[trigger] clean[k] as u32) < 0x80
    &&& forall|k: int|
        0 <= k < clean.len() / 2 ==> pair_parses(#[trigger] clean[2 * k], clean[2 * k + 1])
}

/// The bytes of an `h:` body: its whole pairs of non-space characters, each
/// parsed as a byte; an odd last character is left out.
pub open spec fn hex_body_bytes(body: Seq<char>) -> Seq<u8> {
    let clean = without_spaces(body);
    Seq::new(clean.len() / 2, |k: int| pair_value(clean[2 * k], clean[2 * k + 1]))
}

/// Whether `c` is an ASCII decimal digit.
pub open spec fn is_digit(c: char) -> bool {
    '0' <= c <= '9'
}

/// The value of a string of decimal digits.
pub open spec fn decimal_value(ds: Seq<char>) -> nat
    decreases ds.len(),
{
    if ds.len() == 0 {
        0
    } else {
        decimal_value(ds.drop_last()) * 10 + (ds.last() as int - '0' as int) as nat
    }
}

/// The digits of a `usize` literal: the body without an optional leading `+`.
pub open spec fn unsigned_digits(body: Seq<char>) -> Seq<char> {
    if body.len() > 0 && body[0] == '+' { body.drop_first() } else { body }
}

/// Whether `body` parses as a `usize` (`str::parse`): an optional `+`, one
/// or more digits, and a value that fits.
pub open spec fn parses_as_usize(body: Seq<char>) -> bool {
    let ds = unsigned_digits(body);
    &&& ds.len() > 0
    &&& forall|k: int| 0 <= k < ds.len() ==> is_digit(#[trigger] ds[k])
    &&& decimal_value(ds) <= usize::MAX
}

/// Whether `spec` is a byte spec the probe can decode: `s:`, `h:` or `z:`
/// followed by a body of that kind.
pub open spec fn spec_decodes(spec: Seq<char>) -> bool {
    &&& spec.len() >= 2
    &&& (spec[1] as u32) < 0x80
    &&& (spec[0] == 's' || spec[0] == 'h' || spec[0] == 'z')
    &&& spec[0] == 'h' ==> hex_body_parses(spec.skip(2))
    &&& spec[0] == 'z' ==> parses_as_usize(spec.skip(2))
}

/// The bytes a byte spec stands for: the unescaped text of `s:`, the hex of
/// `h:`, or that many zero bytes for `z:`.
pub open spec fn decoded(spec: Seq<char>) -> Seq<u8> {
    let body = spec.skip(2);
    if spec[0] == 's' {
        unescaped(body)
    } else if spec[0] == 'h' {
        hex_body_bytes(body)
    } else {
        Seq::new(decimal_value(unsigned_digits(body)), |k: int| 0u8)
    }
}

fn escape_byte_of(c: char) -> (b: u8)
    ensures
        b == escape_byte(c),
{
    if c == 'n' {
        10
    } else if c == 'r' {
        13
    } else if c == 't' {
        9
    } else {
        c as u8
    }
}

fn unescape_text(cs: &Vec<char>, from: usize) -> (out: Vec<u8>)
    requires
        from <= cs@.len(),
    ensures
        out@ == unescaped(cs@.skip(from as int)),
{
    let mut out: Vec<u8> = Vec::new();
    let mut i: usize = from;
    while i < cs.len()
        invariant
            from <= i <= cs@.len(),
            out@ + unescaped(cs@.skip(i as int)) == unescaped(cs@.skip(from as int)),
        decreases cs.len() - i,
    {
        let ghost rest = cs@.skip(i as int);
        if cs[i] == '\\' && i + 1 < cs.len() {
            assert(rest.skip(2) =~= cs@.skip(i + 2));
            out.push(escape_byte_of(cs[i + 1]));
            i = i + 2;
        } else {
            assert(rest.drop_first() =~= cs@.skip(i + 1));
            out.push(cs[i] as u8);
            i = i + 1;
        }
        assert(out@ + unescaped(cs@.skip(i as int)) =~= unescaped(cs@.skip(from as int)));
    }
    assert(cs@.skip(i as int) =~= Seq::<char>::empty());
    assert(out@ + Seq::<u8>::empty() =~= out@);
    out
}

fn hex_value_of(c: char) -> (v: u8)
    requires
        is_hex_digit(c),
    ensures
        v as int == hex_value(c),
{
    if '0' <= c && c <= '9' {
        ((c as u32) - ('0' as u32)) as u8
    } else if 'a' <= c && c <= 'f' {
        ((c as u32) - ('a' as u32) + 10) as u8
    } else {
        ((c as u32) - ('A' as u32) + 10) as u8
    }
}

fn hex_body(cs: &Vec<char>) -> (out: Vec<u8>)
    requires
        cs@.len() >= 2,
        hex_body_parses(cs@.skip(2)),
    ensures
        out@ == hex_body_bytes(cs@.skip(2)),
{
    let ghost body = cs@.skip(2);
    let mut clean: Vec<char> = Vec::new();
    let mut i: usize = 2;
    while i < cs.len()
        invariant
            2 <= i <= cs@.len(),
            body == cs@.skip(2),
            clean@ == without_spaces(body.take(i - 2)),
        decreases cs.len() - i,
    {
        assert(body.take(i - 1).drop_last() =~= body.take(i - 2));
        if cs[i] != ' ' {
            clean.push(cs[i]);
        }
        i = i + 1;
    }
    assert(body.take(i - 2) =~= body);
    let mut out: Vec<u8> = Vec::new();
    let mut k: usize = 0;
    let half = clean.len() / 2;
    while k < half
        invariant
            half == clean@.len() / 2,
            k <= half,
            clean@ == without_spaces(body),
            hex_body_parses(body),
            out@ == hex_body_bytes(body).take(k as int),
        decreases half - k,
    {
        assert(2 * k + 1 < clean.len());
        let a = clean[2 * k];
        let b = clean[2 * k + 1];
        assert(pair_parses(clean@[2 * k as int], clean@[2 * k + 1]));
        let v = hex_value_of(b);
        let byte = if a == '+' {
            v
        } else {
            let hi = hex_value_of(a);
            hi * 16 + v
        };
        out.push(byte);
        k = k + 1;
        assert(out@ =~= hex_body_bytes(body).take(k as int));
    }
    assert(hex_body_bytes(body).take(half as int) =~= hex_body_bytes(body));
    out
}

pub proof fn lemma_decimal_prefix(ds: Seq<char>, k: int)
    requires
        0 <= k <= ds.len(),
    ensures
        decimal_value(ds.take(k)) <= decimal_value(ds),
    decreases ds.len(),
{
    if k < ds.len() {
        assert(ds.drop_last().take(k) =~= ds.take(k));
        lemma_decimal_prefix(ds.drop_last(), k);
    } else {
        assert(ds.take(k) =~= ds);
    }
}

fn parse_usize(cs: &Vec<char>, from: usize) -> (n: usize)
    requires
        from <= cs@.len(),
        parses_as_usize(cs@.skip(from as int)),
    ensures
        n == decimal_value(unsigned_digits(cs@.skip(from as int))),
{
    let ghost body = cs@.skip(from as int);
    let start = if from < cs.len() && cs[from] == '+' { from + 1 } else { from };
    let ghost ds = unsigned_digits(body);
    assert(ds =~= cs@.skip(start as int));
    let mut n: usize = 0;
    let mut i: usize = start;
    while i < cs.len()
        invariant
            start <= i <= cs@.len(),
            ds == cs@.skip(start as int),
            parses_as_usize(body),
            ds == unsigned_digits(body),
            n == decimal_value(ds.take(i - start)),
        decreases cs.len() - i,
    {
        assert(ds.take(i + 1 - start).drop_last() =~= ds.take(i - start));
        let ghost next = decimal_value(ds.take(i + 1 - start));
        proof {
            lemma_decimal_prefix(ds, i + 1 - start);
            assert(is_digit(ds[i - start]));
        }
        let d = (cs[i] as u32 - '0' as u32) as usize;
        n = n * 10 + d;
        i = i + 1;
    }
    assert(ds.take(i - start) =~= ds);
    n
}

/// `decode(spec)`: the bytes a probe spec stands for; see [`decoded`].
pub fn decode(spec: &str) -> (out: Vec<u8>)
    requires
        spec_decodes(spec@),
    ensures
        out@ == decoded(spec@),
{
    let cs = chars_of(spec);
    if cs[0] == 's' {
        unescape_text(&cs, 2)
    } else if cs[0] == 'h' {
        hex_body(&cs)
    } else {
        let n = parse_usize(&cs, 2);
        let out = vec![0u8; n];
        assert(out@ =~= Seq::new(n as nat, |k: int| 0u8));
        out
    }
}

fn hex_char(c: char) -> (b: bool)
    ensures
        b == is_hex_digit(c),
{
    ('0' <= c && c <= '9') || ('a' <= c && c <= 'f') || ('A' <= c && c <= 'F')
}

/// Whether the `h:` body after the first two characters of `cs` decodes.
fn hex_body_checks(cs: &Vec<char>) -> (b: bool)
    requires
        cs@.len() >= 2,
    ensures
        b == hex_body_parses(cs@.skip(2)),
{
    let ghost body = cs@.skip(2);
    let mut clean: Vec<char> = Vec::new();
    let mut i: usize = 2;
    while i < cs.len()
        invariant
            2 <= i <= cs@.len(),
            body == cs@.skip(2),
            clean@ == without_spaces(body.take(i - 2)),
        decreases cs.len() - i,
    {
        assert(body.take(i - 1).drop_last() =~= body.take(i - 2));
        if cs[i] != ' ' {
            clean.push(cs[i]);
        }
        i = i + 1;
    }
    assert(body.take(i - 2) =~= body);
    let mut k: usize = 0;
    while k < clean.len()
        invariant
            k <= clean@.len(),
            body == cs@.skip(2),
            clean@ == without_spaces(body),
            forall|j: int| 0 <= j < k ==> (#[trigger] clean@[j] as u32) < 0x80,
        decreases clean.len() - k,
    {
        if clean[k] as u32 >= 0x80 {
            return false;
        }
        k = k + 1;
    }
    let half = clean.len() / 2;
    let mut m: usize = 0;
    while m < half
        invariant
            half == clean@.len() / 2,
            m <= half,
            body == cs@.skip(2),
            clean@ == without_spaces(body),
            forall|j: int| 0 <= j < clean@.len() ==> (#[trigger] clean@[j] as u32) < 0x80,
            forall|j: int| 0 <= j < m ==> pair_parses(#[trigger] clean@[2 * j], clean@[2 * j + 1]),
        decreases half - m,
    {
        assert(2 * m + 1 < clean.len());
        let a = clean[2 * m];
        let b = clean[2 * m + 1];
        if !(hex_char(b) && (hex_char(a) || a == '+')) {
            assert(!pair_parses(clean@[2 * m as int], clean@[2 * m + 1]));
            return false;
        }
        m = m + 1;
    }
    true
}

/// Whether the text of `cs` from `from` on parses as a `usize`.
fn usize_checks(cs: &Vec<char>, from: usize) -> (b: bool)
    requires
        from <= cs@.len(),
    ensures
        b == parses_as_usize(cs@.skip(from as int)),
{
    let ghost body = cs@.skip(from as int);
    let start = if from < cs.len() && cs[from] == '+' { from + 1 } else { from };
    let ghost ds = unsigned_digits(body);
    assert(ds =~= cs@.skip(start as int));
    if start == cs.len() {
        return false;
    }
    let mut n: usize = 0;
    let mut i: usize = start;
    while i < cs.len()
        invariant
            start <= i <= cs@.len(),
            start < cs@.len(),
            ds == cs@.skip(start as int),
            body == cs@.skip(from as int),
            ds == unsigned_digits(body),
            n == decimal_value(ds.take(i - start)),
            forall|j: int| 0 <= j < i - start ==> is_digit(#[trigger] ds[j]),
        decreases cs.len() - i,
    {
        assert(ds.take(i + 1 - start).drop_last() =~= ds.take(i - start));
        let c = cs[i];
        if !('0' <= c && c <= '9') {
            assert(!is_digit(ds[i - start]));
            return false;
        }
        let d = (c as u32 - '0' as u32) as usize;
        if n > (usize::MAX - d) / 10 {
            proof {
                lemma_decimal_prefix(ds, i + 1 - start);
                assert(decimal_value(ds.take(i + 1 - start)) == n * 10 + d);
                assert(n * 10 + d > usize::MAX) by (nonlinear_arith)
                    requires
                        n > (usize::MAX - d) / 10,
                        d <= 9,
                ;
            }
            return false;
        }
        assert(n * 10 + d <= usize::MAX) by (nonlinear_arith)
            requires
                n <= (usize::MAX - d) / 10,
                d <= 9,
        ;
        n = n * 10 + d;
        i = i + 1;
    }
    assert(ds.take(i - start) =~= ds);
    true
}

/// Whether `spec` is a byte spec `decode` reads; see [`spec_decodes`].
pub fn decodes(spec: &str) -> (b: bool)
    ensures
        b == spec_decodes(spec@),
{
    let cs = chars_of(spec);
    if cs.len() < 2 || cs[1] as u32 >= 0x80 {
        return false;
    }
    if cs[0] == 's' {
        true
    } else if cs[0] == 'h' {
        hex_body_checks(&cs)
    } else if cs[0] == 'z' {
        usize_checks(&cs, 2)
    } else {
        false
    }
}

/// `decode(spec)` where `spec` is a byte spec, `None` where it is not.
pub fn try_decode(spec: &str) -> (out: Option<Vec<u8>>)
    ensures
        out is None <==> !spec_decodes(spec@),
        out matches Some(bytes) ==> bytes@ == decoded(spec@),
{
    if decodes(spec) {
        Some(decode(spec))
    } else {
        None
    }
}

/// A table answer: the answer itself, or, where Java answers `java`
/// otherwise, `XDIFF`, tab, `java=` and Java's answer, tab, `rust=` and the
/// answer.
pub open spec fn answer_text(java: Option<Seq<char>>, rust: Seq<char>) -> Seq<char> {
    match java {
        None => rust,
        Some(j) => "XDIFF\tjava="@ + j + "\trust="@ + rust,
    }
}

/// `answer(java, rust)`: see [`answer_text`].
pub fn answer(java: Option<&str>, rust: &str) -> (out: String)
    ensures
        out@ == answer_text(
            match java {
                None => None,
                Some(j) => Some(j@),
            },
            rust@,
        ),
{
    let mut out = String::new();
    match java {
        None => push_str(&mut out, rust),
        Some(j) => {
            push_str(&mut out, "XDIFF\tjava=");
            push_str(&mut out, j);
            push_str(&mut out, "\trust=");
            push_str(&mut out, rust);
        },
    }
    out
}

/// A hexadecimal digit reads back as its value.
proof fn lemma_hex_digit_reads_back(d: int)
    requires
        0 <= d < 16,
    ensures
        is_hex_digit(hex_digit_char(d)),
        hex_value(hex_digit_char(d)) == d,
        hex_digit_char(d) != ' ',
        (hex_digit_char(d) as u32) < 0x80,
{
}

/// The hex of `b` is two digits per byte: the high nibble, then the low one.
proof fn lemma_hex_bytes_layout(b: Seq<u8>)
    ensures
        hex_bytes(b).len() == 2 * b.len(),
        forall|k: int|
            0 <= k < b.len() ==> hex_bytes(b)[2 * k] == hex_digit_char(#[trigger] b[k] as int / 16)
                && hex_bytes(b)[2 * k + 1] == hex_digit_char(b[k] as int % 16),
    decreases b.len(),
{
    if b.len() > 0 {
        let front = b.drop_last();
        lemma_hex_bytes_layout(front);
        let h = hex_bytes(b);
        assert forall|k: int| 0 <= k < b.len() implies h[2 * k] == hex_digit_char(
            #[trigger] b[k] as int / 16,
        ) && h[2 * k + 1] == hex_digit_char(b[k] as int % 16) by {
            if k < front.len() {
                assert(front[k] == b[k]);
            }
        }
    }
}

/// Text without spaces is kept whole.
proof fn lemma_without_spaces_kept(s: Seq<char>)
    requires
        forall|k: int| 0 <= k < s.len() ==> s[k] != ' ',
    ensures
        without_spaces(s) == s,
    decreases s.len(),
{
    if s.len() > 0 {
        let front = s.drop_last();
        assert forall|k: int| 0 <= k < front.len() implies front[k] != ' ' by {
            assert(front[k] == s[k]);
        }
        lemma_without_spaces_kept(front);
        assert(s.last() == s[s.len() - 1]);
        assert(front.push(s.last()) =~= s);
    }
}

/// Reading back what `hex` prints: the spec `h:` followed by the hex of `b`
/// decodes, to `b` itself; `hex` prints exactly that for one to 64 bytes.
pub proof fn lemma_hex_reads_back(b: Seq<u8>)
    ensures
        spec_decodes(seq!['h', ':'] + hex_bytes(b)),
        decoded(seq!['h', ':'] + hex_bytes(b)) == b,
        1 <= b.len() <= 64 ==> capped_hex(b) == hex_bytes(b),
{
    let h = hex_bytes(b);
    let spec = seq!['h', ':'] + h;
    lemma_hex_bytes_layout(b);
    assert(spec.skip(2) =~= h);
    assert forall|k: int| 0 <= k < h.len() implies h[k] != ' ' && (h[k] as u32) < 0x80 && is_hex_digit(
        h[k],
    ) by {
        let q = k / 2;
        assert(0 <= q < b.len());
        if k % 2 == 0 {
            assert(k == 2 * q);
            lemma_hex_digit_reads_back(b[q] as int / 16);
        } else {
            assert(k == 2 * q + 1);
            lemma_hex_digit_reads_back(b[q] as int % 16);
        }
    }
    lemma_without_spaces_kept(h);
    assert forall|k: int| 0 <= k < h.len() / 2 implies pair_parses(#[trigger] h[2 * k], h[2 * k + 1])
        && pair_value(h[2 * k], h[2 * k + 1]) == b[k] by {
        lemma_hex_digit_reads_back(b[k] as int / 16);
        lemma_hex_digit_reads_back(b[k] as int % 16);
        assert(h[2 * k] != '+');
    }
    assert(hex_body_bytes(h) =~= b);
}

} // verus!
