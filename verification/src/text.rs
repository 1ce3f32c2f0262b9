//! Character-level building blocks: reading a `str` as characters, building
//! a `String`, and rendering integers in decimal and hexadecimal.
use vstd::prelude::*;
use vstd::utf8::{decode_utf8, valid_utf8};

verus! {

/// Appends one character to a string (`String::push`).
#[verifier::external_body]
pub(crate) fn push_char(s: &mut String, c: char)
    ensures
        final(s)@ == old(s)@.push(c),
{
    s.push(c);
}

/// The characters of `s`, in order.
pub fn chars_of(s: &str) -> (out: Vec<char>)
    ensures
        out@ == s@,
{
    let mut out: Vec<char> = Vec::new();
    for c in it: s.chars()
        invariant
            out@ == it.seq().take(it.index() as int),
            it.seq() == s@,
    {
        out.push(c);
    }
    out
}


/// The decimal digit character of `d`, for `0 <= d < 10`.
pub open spec fn digit_char(d: int) -> char {
    if d == 0 { '0' } else if d == 1 { '1' } else if d == 2 { '2' } else if d == 3 { '3' }
    else if d == 4 { '4' } else if d == 5 { '5' } else if d == 6 { '6' } else if d == 7 { '7' }
    else if d == 8 { '8' } else { '9' }
}

/// The lower-case hexadecimal digit character of `d`, for `0 <= d < 16`.
pub open spec fn hex_digit_char(d: int) -> char {
    if d < 10 { digit_char(d) } else if d == 10 { 'a' } else if d == 11 { 'b' }
    else if d == 12 { 'c' } else if d == 13 { 'd' } else if d == 14 { 'e' } else { 'f' }
}

/// The decimal digits of `n`, most significant first, without leading zeros.
pub open spec fn digits(n: nat) -> Seq<char>
    decreases n,
{
    if n < 10 {
        seq![digit_char(n as int)]
    } else {
        digits(n / 10).push(digit_char((n % 10) as int))
    }
}

/// `i` written in decimal, with a leading `-` when negative.
pub open spec fn decimal(i: int) -> Seq<char> {
    if i < 0 { seq!['-'] + digits((-i) as nat) } else { digits(i as nat) }
}

/// A byte as two lower-case hexadecimal digits.
pub open spec fn hex2(b: u8) -> Seq<char> {
    seq![hex_digit_char(b as int / 16), hex_digit_char(b as int % 16)]
}

pub fn digit_of(d: u64) -> (c: char)
    requires
        d < 16,
    ensures
        c == hex_digit_char(d as int),
{
    match d {
        0 => '0', 1 => '1', 2 => '2', 3 => '3', 4 => '4', 5 => '5', 6 => '6', 7 => '7',
        8 => '8', 9 => '9', 10 => 'a', 11 => 'b', 12 => 'c', 13 => 'd', 14 => 'e', _ => 'f',
    }
}

/// Appends the decimal digits of `n`.
pub fn push_digits(s: &mut String, n: u64)
    ensures
        final(s)@ == old(s)@ + digits(n as nat),
    decreases n,
{
    if n >= 10 {
        push_digits(s, n / 10);
    }
    push_char(s, digit_of(n % 10));
}

/// Appends `v` in decimal.
pub fn push_int(s: &mut String, v: i64)
    ensures
        final(s)@ == old(s)@ + decimal(v as int),
{
    if v < 0 {
        push_char(s, '-');
        let m: u64 = (-(v as i128)) as u64;
        push_digits(s, m);
        assert(final(s)@ =~= old(s)@ + decimal(v as int));
    } else {
        push_digits(s, v as u64);
    }
}

/// `v` in decimal, as `Integer.toString` / `Display` write it.
pub fn int_to_string(v: i64) -> (out: String)
    ensures
        out@ == decimal(v as int),
{
    let mut out = String::new();
    push_int(&mut out, v);
    assert(out@ =~= decimal(v as int));
    out
}

/// Appends a byte as two lower-case hexadecimal digits.
pub fn push_hex2(s: &mut String, b: u8)
    ensures
        final(s)@ == old(s)@ + hex2(b),
{
    push_char(s, digit_of((b / 16) as u64));
    push_char(s, digit_of((b % 16) as u64));
    assert(final(s)@ =~= old(s)@ + hex2(b));
}

/// Appends every character of `t`.
pub fn push_str(s: &mut String, t: &str)
    ensures
        final(s)@ == old(s)@ + t@,
{
    s.append(t);
}


/// The string holding exactly the characters `v`.
pub fn string_of(v: &Vec<char>) -> (out: String)
    ensures
        out@ == v@,
{
    let mut out = String::new();
    let mut i: usize = 0;
    while i < v.len()
        invariant
            i <= v.len(),
            out@ == v@.take(i as int),
        decreases v.len() - i,
    {
        push_char(&mut out, v[i]);
        i = i + 1;
        assert(out@ =~= v@.take(i as int));
    }
    assert(v@.take(v.len() as int) =~= v@);
    out
}

/// Appends every character of `t` to `v`.
pub fn extend_chars(v: &mut Vec<char>, t: &Vec<char>)
    ensures
        final(v)@ == old(v)@ + t@,
{
    let mut i: usize = 0;
    while i < t.len()
        invariant
            i <= t.len(),
            v@ == old(v)@ + t@.take(i as int),
        decreases t.len() - i,
    {
        v.push(t[i]);
        i = i + 1;
        assert(v@ =~= old(v)@ + t@.take(i as int));
    }
    assert(t@.take(t.len() as int) =~= t@);
}

/// Whether `pat` occurs in `s` starting at index `i`.
pub open spec fn occurs_at(s: Seq<char>, pat: Seq<char>, i: int) -> bool {
    0 <= i && i + pat.len() <= s.len() && s.subrange(i, i + pat.len()) == pat
}

/// The first index at or after `i` where `pat` occurs in `s`.
pub open spec fn find_from(s: Seq<char>, pat: Seq<char>, i: int) -> Option<int>
    decreases s.len() + 1 - i,
{
    if i < 0 || i + pat.len() > s.len() {
        None
    } else if occurs_at(s, pat, i) {
        Some(i)
    } else {
        find_from(s, pat, i + 1)
    }
}

/// The first index where `pat` occurs in `s` (`str::find`).
pub open spec fn find_first(s: Seq<char>, pat: Seq<char>) -> Option<int> {
    find_from(s, pat, 0)
}

/// Whether `pat` occurs in `s` at index `i` (an exact, bounds-checked test).
pub fn matches_at(s: &Vec<char>, i: usize, pat: &Vec<char>) -> (b: bool)
    ensures
        b == occurs_at(s@, pat@, i as int),
{
    if i > s.len() || pat.len() > s.len() - i {
        return false;
    }
    let mut k: usize = 0;
    while k < pat.len()
        invariant
            i + pat.len() <= s.len(),
            k <= pat.len(),
            forall|q: int| 0 <= q < k ==> s@[i + q] == pat@[q],
        decreases pat.len() - k,
    {
        if s[i + k] != pat[k] {
            assert(s@.subrange(i as int, i + pat.len())[k as int] != pat@[k as int]);
            return false;
        }
        k = k + 1;
    }
    assert(s@.subrange(i as int, i + pat.len()) =~= pat@);
    true
}

/// `str::find`: the first index where `pat` occurs in `s`.
pub fn find(s: &Vec<char>, pat: &Vec<char>) -> (r: Option<usize>)
    ensures
        r matches Some(i) ==> find_first(s@, pat@) == Some(i as int),
        r is None ==> find_first(s@, pat@) is None,
{
    let mut i: usize = 0;
    while i <= s.len()
        invariant
            find_first(s@, pat@) == find_from(s@, pat@, i as int),
        decreases s.len() + 1 - i,
    {
        if pat.len() > s.len() - i {
            return None;
        }
        if matches_at(s, i, pat) {
            return Some(i);
        }
        if i == s.len() {
            assert(find_from(s@, pat@, i + 1) is None);
            return None;
        }
        i = i + 1;
    }
    None
}

/// `s` with every non-overlapping occurrence of `pat`, scanning left to
/// right, replaced by `with` (`str::replace`, for a non-empty `pat`).
pub open spec fn replace_all(s: Seq<char>, pat: Seq<char>, with: Seq<char>) -> Seq<char>
    decreases s.len(),
{
    if pat.len() == 0 || s.len() < pat.len() {
        s
    } else if s.take(pat.len() as int) == pat {
        with + replace_all(s.skip(pat.len() as int), pat, with)
    } else {
        seq![s[0]] + replace_all(s.drop_first(), pat, with)
    }
}

/// `str::replace` for a non-empty pattern.
pub fn replace(s: &Vec<char>, pat: &Vec<char>, with: &Vec<char>) -> (out: Vec<char>)
    requires
        pat@.len() > 0,
    ensures
        out@ == replace_all(s@, pat@, with@),
{
    let mut out: Vec<char> = Vec::new();
    let mut i: usize = 0;
    assert(s@.skip(0) =~= s@);
    while i < s.len()
        invariant
            i <= s.len(),
            pat@.len() > 0,
            out@ + replace_all(s@.skip(i as int), pat@, with@) == replace_all(s@, pat@, with@),
        decreases s.len() - i,
    {
        let ghost rest = s@.skip(i as int);
        if matches_at(s, i, pat) {
            assert(rest.take(pat@.len() as int) =~= pat@);
            assert(rest.skip(pat@.len() as int) =~= s@.skip(i + pat@.len()));
            extend_chars(&mut out, with);
            i = i + pat.len();
        } else {
            proof {
                if rest.len() >= pat@.len() {
                    assert(rest.take(pat@.len() as int) =~= s@.subrange(i as int, i + pat@.len()));
                    assert(rest.drop_first() =~= s@.skip(i + 1));
                } else {
                    assert(replace_all(rest, pat@, with@) == rest);
                    assert(rest =~= seq![s@[i as int]] + s@.skip(i + 1));
                    assert(replace_all(s@.skip(i + 1), pat@, with@) == s@.skip(i + 1));
                }
            }
            out.push(s[i]);
            i = i + 1;
        }
    }
    assert(s@.skip(s.len() as int) =~= Seq::<char>::empty());
    out
}

/// `s` split at every `sep` (`str::split`): one more piece than separators.
pub open spec fn split_on(s: Seq<char>, sep: char) -> Seq<Seq<char>>
    decreases s.len(),
{
    if s.len() == 0 {
        seq![Seq::<char>::empty()]
    } else {
        let pieces = split_on(s.drop_last(), sep);
        if s.last() == sep {
            pieces.push(Seq::<char>::empty())
        } else {
            pieces.update(pieces.len() - 1, pieces.last().push(s.last()))
        }
    }
}

pub proof fn lemma_split_nonempty(s: Seq<char>, sep: char)
    ensures
        split_on(s, sep).len() >= 1,
    decreases s.len(),
{
    if s.len() > 0 {
        lemma_split_nonempty(s.drop_last(), sep);
    }
}

/// `s.split(sep)`, as owned pieces.
pub fn split(s: &Vec<char>, sep: char) -> (pieces: Vec<Vec<char>>)
    ensures
        pieces@.len() == split_on(s@, sep).len(),
        forall|k: int| 0 <= k < pieces@.len() ==> #[trigger] pieces@[k]@ == split_on(s@, sep)[k],
{
    let mut pieces: Vec<Vec<char>> = Vec::new();
    pieces.push(Vec::new());
    let mut i: usize = 0;
    while i < s.len()
        invariant
            i <= s.len(),
            pieces@.len() == split_on(s@.take(i as int), sep).len(),
            forall|k: int|
                0 <= k < pieces@.len() ==> #[trigger] pieces@[k]@ == split_on(
                    s@.take(i as int),
                    sep,
                )[k],
        decreases s.len() - i,
    {
        let ghost before = split_on(s@.take(i as int), sep);
        proof {
            lemma_split_nonempty(s@.take(i as int), sep);
        }
        assert(s@.take(i + 1).drop_last() =~= s@.take(i as int));
        let c = s[i];
        if c == sep {
            pieces.push(Vec::new());
        } else {
            let last = pieces.len() - 1;
            let mut piece = pieces.pop().unwrap();
            piece.push(c);
            pieces.push(piece);
            assert(pieces@[last as int]@ == before[last as int].push(c));
        }
        i = i + 1;
        assert forall|k: int| 0 <= k < pieces@.len() implies #[trigger] pieces@[k]@ == split_on(
            s@.take(i as int),
            sep,
        )[k] by {}
    }
    assert(s@.take(s.len() as int) =~= s@);
    pieces
}

/// `pieces` joined with `sep` between consecutive pieces (`join`).
pub open spec fn join(pieces: Seq<Seq<char>>, sep: Seq<char>) -> Seq<char>
    decreases pieces.len(),
{
    if pieces.len() == 0 {
        Seq::<char>::empty()
    } else if pieces.len() == 1 {
        pieces[0]
    } else {
        join(pieces.drop_last(), sep) + sep + pieces.last()
    }
}

/// `pieces.join(sep)`.
pub fn join_pieces(pieces: &Vec<Vec<char>>, sep: &Vec<char>) -> (out: Vec<char>)
    ensures
        out@ == join(pieces@.map_values(|p: Vec<char>| p@), sep@),
{
    let ghost views = pieces@.map_values(|p: Vec<char>| p@);
    let mut out: Vec<char> = Vec::new();
    let mut i: usize = 0;
    while i < pieces.len()
        invariant
            i <= pieces.len(),
            views == pieces@.map_values(|p: Vec<char>| p@),
            out@ == join(views.take(i as int), sep@),
        decreases pieces.len() - i,
    {
        assert(views.take(i + 1).drop_last() =~= views.take(i as int));
        if i > 0 {
            extend_chars(&mut out, sep);
        }
        extend_chars(&mut out, &pieces[i]);
        i = i + 1;
        proof {
            if i == 1 {
                assert(out@ =~= join(views.take(1), sep@));
            }
        }
    }
    assert(views.take(pieces.len() as int) =~= views);
    out
}

/// The number of occurrences of `c` in `s`.
pub open spec fn count_of(s: Seq<char>, c: char) -> nat
    decreases s.len(),
{
    if s.len() == 0 {
        0
    } else {
        count_of(s.drop_last(), c) + if s.last() == c { 1nat } else { 0nat }
    }
}

/// Counting over two texts joined is counting over each: the count is
/// additive, and nothing is counted in the empty text.
pub proof fn lemma_count_additive(a: Seq<char>, b: Seq<char>, c: char)
    ensures
        count_of(a + b, c) == count_of(a, c) + count_of(b, c),
        count_of(Seq::<char>::empty(), c) == 0,
    decreases b.len(),
{
    if b.len() == 0 {
        assert(a + b =~= a);
    } else {
        lemma_count_additive(a, b.drop_last(), c);
        assert((a + b).drop_last() =~= a + b.drop_last());
        assert((a + b).last() == b.last());
    }
}

proof fn lemma_count_bound(s: Seq<char>, c: char)
    ensures
        count_of(s, c) <= s.len(),
    decreases s.len(),
{
    if s.len() > 0 {
        lemma_count_bound(s.drop_last(), c);
    }
}

/// The number of occurrences of `c` in `s`.
pub fn count_chars(s: &Vec<char>, c: char) -> (n: usize)
    ensures
        n == count_of(s@, c),
        n <= s@.len(),
{
    let mut n: usize = 0;
    let mut i: usize = 0;
    while i < s.len()
        invariant
            i <= s.len(),
            n == count_of(s@.take(i as int), c),
            n <= i,
        decreases s.len() - i,
    {
        assert(s@.take(i + 1).drop_last() =~= s@.take(i as int));
        if s[i] == c {
            n = n + 1;
        }
        i = i + 1;
    }
    assert(s@.take(s.len() as int) =~= s@);
    n
}

/// Whether `c` is white space in the Unicode sense (`char::is_whitespace`).
pub open spec fn is_unicode_whitespace(c: char) -> bool {
    ||| '\t' <= c <= '\r'
    ||| c == ' '
    ||| c == '\u{85}'
    ||| c == '\u{a0}'
    ||| c == '\u{1680}'
    ||| '\u{2000}' <= c <= '\u{200a}'
    ||| c == '\u{2028}'
    ||| c == '\u{2029}'
    ||| c == '\u{202f}'
    ||| c == '\u{205f}'
    ||| c == '\u{3000}'
}

/// `char::is_whitespace`.
pub fn is_whitespace(c: char) -> (b: bool)
    ensures
        b == is_unicode_whitespace(c),
{
    ('\t' <= c && c <= '\r') || c == ' ' || c == '\u{85}' || c == '\u{a0}' || c == '\u{1680}'
        || ('\u{2000}' <= c && c <= '\u{200a}') || c == '\u{2028}' || c == '\u{2029}'
        || c == '\u{202f}' || c == '\u{205f}' || c == '\u{3000}'
}

/// `s` without its leading white space (`str::trim_start`).
pub open spec fn trim_start(s: Seq<char>) -> Seq<char>
    decreases s.len(),
{
    if s.len() > 0 && is_unicode_whitespace(s[0]) {
        trim_start(s.drop_first())
    } else {
        s
    }
}

/// The number of leading white-space characters of `s`.
pub fn leading_whitespace(s: &Vec<char>) -> (k: usize)
    ensures
        k <= s@.len(),
        trim_start(s@) == s@.skip(k as int),
{
    let mut k: usize = 0;
    assert(s@.skip(0) =~= s@);
    while k < s.len() && is_whitespace(s[k])
        invariant
            k <= s.len(),
            trim_start(s@) == trim_start(s@.skip(k as int)),
        decreases s.len() - k,
    {
        assert(s@.skip(k as int).drop_first() =~= s@.skip(k + 1));
        k = k + 1;
    }
    proof {
        if k < s.len() {
            assert(s@.skip(k as int)[0] == s@[k as int]);
        }
    }
    k
}


/// The hexadecimal digits of `n`, lower case, most significant first.
pub open spec fn hex_digits(n: nat) -> Seq<char>
    decreases n,
{
    if n < 16 {
        seq![hex_digit_char(n as int)]
    } else {
        hex_digits(n / 16).push(hex_digit_char((n % 16) as int))
    }
}

/// `s` left-padded with `'0'` to at least `width` characters.
pub open spec fn zero_padded(s: Seq<char>, width: nat) -> Seq<char> {
    if s.len() >= width {
        s
    } else {
        Seq::new((width - s.len()) as nat, |i: int| '0') + s
    }
}

/// Appends the hexadecimal digits of `n`.
pub fn push_hex_digits(s: &mut String, n: u64)
    ensures
        final(s)@ == old(s)@ + hex_digits(n as nat),
    decreases n,
{
    if n >= 16 {
        push_hex_digits(s, n / 16);
    }
    push_char(s, digit_of(n % 16));
}

/// The number of hexadecimal digits of `n`.
pub fn hex_digit_count(n: u64) -> (k: u64)
    ensures
        k == hex_digits(n as nat).len(),
        k <= n as int + 1,
    decreases n,
{
    if n < 16 {
        1
    } else {
        let k = hex_digit_count(n / 16);
        k + 1
    }
}

/// The number of decimal digits of `n`.
pub fn digit_count(n: u64) -> (k: u64)
    ensures
        k == digits(n as nat).len(),
        k <= n as int + 1,
    decreases n,
{
    if n < 10 {
        1
    } else {
        let k = digit_count(n / 10);
        k + 1
    }
}

/// Appends `count` zeros.
pub fn push_zeros(s: &mut String, count: u64)
    ensures
        final(s)@ == old(s)@ + Seq::new(count as nat, |i: int| '0'),
{
    let mut k: u64 = 0;
    while k < count
        invariant
            k <= count,
            s@ == old(s)@ + Seq::new(k as nat, |i: int| '0'),
        decreases count - k,
    {
        push_char(s, '0');
        k = k + 1;
        assert(s@ =~= old(s)@ + Seq::new(k as nat, |i: int| '0'));
    }
}

/// Appends `n` in lower-case hexadecimal, zero-padded to `width` (`{:0w$x}`).
pub fn push_hex_padded(s: &mut String, n: u64, width: u64)
    ensures
        final(s)@ == old(s)@ + zero_padded(hex_digits(n as nat), width as nat),
{
    let k = hex_digit_count(n);
    if k < width {
        push_zeros(s, width - k);
    }
    push_hex_digits(s, n);
    assert(final(s)@ =~= old(s)@ + zero_padded(hex_digits(n as nat), width as nat));
}

/// Appends `n` in decimal, zero-padded to `width` (`{:0w$}`).
pub fn push_digits_padded(s: &mut String, n: u64, width: u64)
    ensures
        final(s)@ == old(s)@ + zero_padded(digits(n as nat), width as nat),
{
    let k = digit_count(n);
    if k < width {
        push_zeros(s, width - k);
    }
    push_digits(s, n);
    assert(final(s)@ =~= old(s)@ + zero_padded(digits(n as nat), width as nat));
}

/// The last index of `c` in `s` (`str::rfind` on a character).
pub open spec fn last_index_of(s: Seq<char>, c: char) -> Option<int>
    decreases s.len(),
{
    if s.len() == 0 {
        None
    } else if s.last() == c {
        Some(s.len() - 1)
    } else {
        last_index_of(s.drop_last(), c)
    }
}

/// `str::rfind` on a character.
pub fn rfind(s: &Vec<char>, c: char) -> (r: Option<usize>)
    ensures
        r matches Some(i) ==> last_index_of(s@, c) == Some(i as int) && i < s@.len(),
        r is None ==> last_index_of(s@, c) is None,
{
    let mut k: usize = s.len();
    assert(s@.take(k as int) =~= s@);
    while k > 0
        invariant
            k <= s.len(),
            last_index_of(s@, c) == last_index_of(s@.take(k as int), c),
        decreases k,
    {
        assert(s@.take(k as int).drop_last() =~= s@.take(k - 1));
        if s[k - 1] == c {
            return Some(k - 1);
        }
        k = k - 1;
    }
    None
}

/// `s` with the empty pattern replaced: `with` before every character and at
/// the end (`str::replace` with `""`).
pub open spec fn interleave(s: Seq<char>, with: Seq<char>) -> Seq<char>
    decreases s.len(),
{
    if s.len() == 0 {
        with
    } else {
        with + seq![s[0]] + interleave(s.drop_first(), with)
    }
}

/// `str::replace(pat, with)`, for any pattern.
pub open spec fn replaced(s: Seq<char>, pat: Seq<char>, with: Seq<char>) -> Seq<char> {
    if pat.len() == 0 {
        interleave(s, with)
    } else {
        replace_all(s, pat, with)
    }
}

/// `str::replace(pat, with)`.
pub fn replace_any(s: &Vec<char>, pat: &Vec<char>, with: &Vec<char>) -> (out: Vec<char>)
    ensures
        out@ == replaced(s@, pat@, with@),
{
    if pat.len() > 0 {
        return replace(s, pat, with);
    }
    let mut out: Vec<char> = Vec::new();
    let mut i: usize = 0;
    assert(s@.skip(0) =~= s@);
    while i < s.len()
        invariant
            i <= s.len(),
            out@ + interleave(s@.skip(i as int), with@) == interleave(s@, with@),
        decreases s.len() - i,
    {
        assert(s@.skip(i as int).drop_first() =~= s@.skip(i + 1));
        extend_chars(&mut out, with);
        out.push(s[i]);
        i = i + 1;
        assert(out@ + interleave(s@.skip(i as int), with@) =~= interleave(s@, with@));
    }
    extend_chars(&mut out, with);
    assert(s@.skip(i as int) =~= Seq::<char>::empty());
    out
}

/// Whether `s` and `t` hold the same characters.
pub fn same_chars(s: &Vec<char>, t: &Vec<char>) -> (b: bool)
    ensures
        b == (s@ == t@),
{
    if s.len() != t.len() {
        return false;
    }
    let mut i: usize = 0;
    while i < s.len()
        invariant
            i <= s.len() == t.len(),
            forall|q: int| 0 <= q < i ==> s@[q] == t@[q],
        decreases s.len() - i,
    {
        if s[i] != t[i] {
            return false;
        }
        i = i + 1;
    }
    assert(s@ =~= t@);
    true
}


/// `std::str::from_utf8`: the text `bytes` encode, when they are valid UTF-8;
/// the standard library decodes exactly the well-formed encodings of Unicode
/// scalar values.
#[verifier::external_body]
pub(crate) fn text_from_utf8(bytes: &[u8]) -> (r: Option<String>)
    ensures
        r is Some <==> valid_utf8(bytes@),
        r matches Some(s) ==> s@ == decode_utf8(bytes@),
{
    match std::str::from_utf8(bytes) {
        Ok(text) => Some(text.to_string()),
        Err(_) => None,
    }
}


/// The decimal renderings of `vals` with `sep` between consecutive ones.
pub open spec fn decimal_list(vals: Seq<int>, sep: Seq<char>) -> Seq<char>
    decreases vals.len(),
{
    if vals.len() == 0 {
        Seq::<char>::empty()
    } else if vals.len() == 1 {
        decimal(vals[0])
    } else {
        decimal_list(vals.drop_last(), sep) + sep + decimal(vals.last())
    }
}

/// The integer values of `v`.
pub open spec fn int_values(v: Seq<i64>) -> Seq<int> {
    v.map_values(|x: i64| x as int)
}

/// Appends the decimal renderings of `vals`, separated by `sep`.
pub fn push_decimal_list(out: &mut String, vals: &Vec<i64>, sep: &str)
    ensures
        final(out)@ == old(out)@ + decimal_list(int_values(vals@), sep@),
{
    let ghost all = int_values(vals@);
    let mut i: usize = 0;
    while i < vals.len()
        invariant
            i <= vals@.len(),
            all == int_values(vals@),
            out@ == old(out)@ + decimal_list(all.take(i as int), sep@),
        decreases vals.len() - i,
    {
        assert(all.take(i + 1).drop_last() =~= all.take(i as int));
        if i > 0 {
            push_str(out, sep);
        }
        push_int(out, vals[i]);
        i = i + 1;
        proof {
            if i == 1 {
                assert(all.take(1)[0] == vals@[0] as int);
            }
        }
        assert(out@ =~= old(out)@ + decimal_list(all.take(i as int), sep@));
    }
    assert(all.take(vals.len() as int) =~= all);
}

/// `[`, the decimal renderings of `vals` separated by `sep`, and `]`.
pub open spec fn bracketed(vals: Seq<int>, sep: Seq<char>) -> Seq<char> {
    seq!['['] + decimal_list(vals, sep) + seq![']']
}

/// Renders `vals` as [`bracketed`].
pub fn bracketed_list(vals: &Vec<i64>, sep: &str) -> (out: String)
    ensures
        out@ == bracketed(int_values(vals@), sep@),
{
    let mut out = String::new();
    push_char(&mut out, '[');
    push_decimal_list(&mut out, vals, sep);
    push_char(&mut out, ']');
    assert(out@ =~= bracketed(int_values(vals@), sep@));
    out
}

/// Every character is printable ASCII: a space up to a tilde.
pub open spec fn printable(s: Seq<char>) -> bool {
    forall|k: int| 0 <= k < s.len() ==> 0x20 <= (#[trigger] s[k]) as u32 <= 0x7e
}

/// The hexadecimal digits of a number are printable.
pub proof fn lemma_hex_digits_printable(n: nat)
    ensures
        printable(hex_digits(n)),
    decreases n,
{
    if n >= 16 {
        lemma_hex_digits_printable(n / 16);
        let d = hex_digits(n / 16);
        let e = hex_digits(n);
        assert forall|k: int| 0 <= k < e.len() implies 0x20 <= (#[trigger] e[k]) as u32 <= 0x7e by {
            if k < d.len() {
                assert(e[k] == d[k]);
            }
        }
    }
}

/// Padding printable text with zeros keeps it printable.
pub proof fn lemma_zero_padded_printable(s: Seq<char>, width: nat)
    requires
        printable(s),
    ensures
        printable(zero_padded(s, width)),
{
    if s.len() < width {
        let z = zero_padded(s, width);
        let pad = (width - s.len()) as nat;
        assert forall|k: int| 0 <= k < z.len() implies 0x20 <= (#[trigger] z[k]) as u32 <= 0x7e by {
            if k >= pad {
                assert(z[k] == s[k - pad]);
            }
        }
    }
}

/// Two printable texts joined are printable.
pub proof fn lemma_concat_printable(a: Seq<char>, b: Seq<char>)
    requires
        printable(a),
        printable(b),
    ensures
        printable(a + b),
{
    assert forall|k: int| 0 <= k < (a + b).len() implies 0x20 <= (#[trigger] (a + b)[k]) as u32
        <= 0x7e by {
        if k >= a.len() {
            assert((a + b)[k] == b[k - a.len()]);
        }
    }
}

proof fn lemma_join_extend_last(pieces: Seq<Seq<char>>, sep: Seq<char>, x: char)
    requires
        pieces.len() >= 1,
    ensures
        join(pieces.update(pieces.len() - 1, pieces.last().push(x)), sep) == join(pieces, sep).push(
            x,
        ),
{
    let q = pieces.update(pieces.len() - 1, pieces.last().push(x));
    if pieces.len() == 1 {
    } else {
        assert(q.drop_last() =~= pieces.drop_last());
        assert(join(q, sep) == join(pieces.drop_last(), sep) + sep + pieces.last().push(x));
        assert(join(pieces.drop_last(), sep) + sep + pieces.last().push(x) =~= (join(
            pieces.drop_last(),
            sep,
        ) + sep + pieces.last()).push(x));
    }
}

/// Splitting at a character and joining the pieces with it gives back the
/// text.
pub proof fn lemma_join_split(s: Seq<char>, c: char)
    ensures
        join(split_on(s, c), seq![c]) == s,
    decreases s.len(),
{
    if s.len() == 0 {
    } else {
        let t = s.drop_last();
        let pieces = split_on(t, c);
        lemma_join_split(t, c);
        lemma_split_nonempty(t, c);
        if s.last() == c {
            assert(pieces.push(Seq::<char>::empty()).drop_last() =~= pieces);
            assert(join(pieces.push(Seq::<char>::empty()), seq![c]) =~= t + seq![c] + Seq::<char>::empty());
        } else {
            lemma_join_extend_last(pieces, seq![c], s.last());
        }
        assert(t.push(s.last()) =~= s);
    }
}

/// Whether `c` occurs nowhere in `s`.
pub open spec fn free_of(s: Seq<char>, c: char) -> bool {
    forall|k: int| 0 <= k < s.len() ==> s[k] != c
}

/// Text without the separator is one piece.
pub proof fn lemma_split_free(y: Seq<char>, c: char)
    requires
        free_of(y, c),
    ensures
        split_on(y, c) == seq![y],
    decreases y.len(),
{
    if y.len() > 0 {
        let y0 = y.drop_last();
        assert forall|k: int| 0 <= k < y0.len() implies y0[k] != c by {
            assert(y0[k] == y[k]);
        }
        lemma_split_free(y0, c);
        assert(y.last() != c) by {
            assert(y.last() == y[y.len() - 1]);
        }
        assert(y0.push(y.last()) =~= y);
        assert(seq![y0].update(0, y0.push(y.last())) =~= seq![y]);
    } else {
        assert(y =~= Seq::<char>::empty());
    }
}

/// Splitting `x`, a separator and a piece without it gives the pieces of `x`
/// and that piece.
pub proof fn lemma_split_after_separator(x: Seq<char>, y: Seq<char>, c: char)
    requires
        free_of(y, c),
    ensures
        split_on(x + seq![c] + y, c) == split_on(x, c).push(y),
    decreases y.len(),
{
    if y.len() == 0 {
        assert(x + seq![c] + y =~= x.push(c));
        assert((x.push(c)).drop_last() =~= x);
        assert((x.push(c)).last() == c);
        assert(y =~= Seq::<char>::empty());
    } else {
        let y0 = y.drop_last();
        assert forall|k: int| 0 <= k < y0.len() implies y0[k] != c by {
            assert(y0[k] == y[k]);
        }
        lemma_split_after_separator(x, y0, c);
        let whole = x + seq![c] + y;
        assert(whole.drop_last() =~= x + seq![c] + y0);
        assert(whole.last() == y.last());
        assert(y.last() != c) by {
            assert(y.last() == y[y.len() - 1]);
        }
        let before = split_on(x, c).push(y0);
        assert(y0.push(y.last()) =~= y);
        assert(before.update(before.len() - 1, before.last().push(y.last())) =~= split_on(
            x,
            c,
        ).push(y));
    }
}

/// Joining pieces without the separator and splitting again gives the
/// pieces back.
pub proof fn lemma_split_join(pieces: Seq<Seq<char>>, c: char)
    requires
        pieces.len() >= 1,
        forall|k: int| 0 <= k < pieces.len() ==> free_of(#[trigger] pieces[k], c),
    ensures
        split_on(join(pieces, seq![c]), c) == pieces,
    decreases pieces.len(),
{
    if pieces.len() == 1 {
        lemma_split_free(pieces[0], c);
        assert(seq![pieces[0]] =~= pieces);
    } else {
        let front = pieces.drop_last();
        lemma_split_join(front, c);
        lemma_split_after_separator(join(front, seq![c]), pieces.last(), c);
        assert(front.push(pieces.last()) =~= pieces);
    }
}

/// Splitting a text that starts with the separator gives an empty piece,
/// then the pieces of the rest.
pub proof fn lemma_split_leading_separator(t: Seq<char>, c: char)
    ensures
        split_on(seq![c] + t, c) == seq![Seq::<char>::empty()] + split_on(t, c),
    decreases t.len(),
{
    let e = Seq::<char>::empty();
    if t.len() == 0 {
        let w = seq![c] + t;
        assert(w =~= seq![c]);
        assert(w.drop_last() =~= e);
        assert(w.last() == c);
        assert(split_on(w, c) == split_on(e, c).push(e));
        assert(split_on(t, c) == seq![e]) by {
            assert(t =~= e);
        }
        assert(seq![e].push(e) =~= seq![e] + seq![e]);
    } else {
        let t0 = t.drop_last();
        lemma_split_leading_separator(t0, c);
        lemma_split_nonempty(t0, c);
        let w = seq![c] + t;
        assert(w.drop_last() =~= seq![c] + t0);
        assert(w.last() == t.last());
        let rest = split_on(t0, c);
        let whole = seq![e] + rest;
        if t.last() == c {
            assert(whole.push(e) =~= seq![e] + rest.push(e));
        } else {
            assert(whole.update(whole.len() - 1, whole.last().push(t.last())) =~= seq![e]
                + rest.update(rest.len() - 1, rest.last().push(t.last())));
        }
    }
}

/// The first character of joined pieces is that of the first piece, where it
/// has one.
pub proof fn lemma_join_first(pieces: Seq<Seq<char>>, sep: Seq<char>)
    requires
        pieces.len() >= 1,
        pieces[0].len() >= 1,
    ensures
        join(pieces, sep).len() >= 1,
        join(pieces, sep)[0] == pieces[0][0],
    decreases pieces.len(),
{
    if pieces.len() > 1 {
        lemma_join_first(pieces.drop_last(), sep);
    }
}


/// What `find_from` answers: the first occurrence at or after `i`, or that
/// there is none.
pub proof fn lemma_find_from_meaning(s: Seq<char>, pat: Seq<char>, i: int)
    requires
        0 <= i,
    ensures
        find_from(s, pat, i) matches Some(r) ==> i <= r && occurs_at(s, pat, r) && forall|q: int|
            i <= q < r ==> !occurs_at(s, pat, q),
        find_from(s, pat, i) is None ==> forall|q: int| i <= q ==> !occurs_at(s, pat, q),
    decreases s.len() + 1 - i,
{
    if i + pat.len() > s.len() {
    } else if occurs_at(s, pat, i) {
    } else {
        lemma_find_from_meaning(s, pat, i + 1);
    }
}

/// Before the first occurrence of `pat`, `replace_all` copies the text.
pub proof fn lemma_replace_all_front(s: Seq<char>, pat: Seq<char>, with: Seq<char>, m: int)
    requires
        pat.len() > 0,
        0 <= m <= s.len(),
        forall|q: int| 0 <= q < m ==> !occurs_at(s, pat, q),
    ensures
        replace_all(s, pat, with) == s.take(m) + replace_all(s.skip(m), pat, with),
    decreases m,
{
    if m == 0 {
        assert(s.skip(0) =~= s);
        assert(s.take(0) + s =~= s);
    } else if s.len() < pat.len() {
        assert(s.take(m) + s.skip(m) =~= s);
    } else {
        assert(!occurs_at(s, pat, 0));
        assert(s.subrange(0, pat.len() as int) =~= s.take(pat.len() as int));
        let r = s.drop_first();
        assert forall|q: int| 0 <= q < m - 1 implies !occurs_at(r, pat, q) by {
            assert(!occurs_at(s, pat, q + 1));
            if occurs_at(r, pat, q) {
                assert(r.subrange(q, q + pat.len()) =~= s.subrange(q + 1, q + 1 + pat.len()));
            }
        }
        lemma_replace_all_front(r, pat, with, m - 1);
        assert(r.skip(m - 1) =~= s.skip(m));
        assert(seq![s[0]] + r.take(m - 1) =~= s.take(m));
        assert(seq![s[0]] + (r.take(m - 1) + replace_all(s.skip(m), pat, with)) =~= s.take(m)
            + replace_all(s.skip(m), pat, with));
    }
}

/// Where `pat` occurs at `m` and nowhere before, `replace_all` copies the
/// text before it, writes `with`, and goes on after it.
pub proof fn lemma_replace_all_first(s: Seq<char>, pat: Seq<char>, with: Seq<char>, m: int)
    requires
        pat.len() > 0,
        occurs_at(s, pat, m),
        forall|q: int| 0 <= q < m ==> !occurs_at(s, pat, q),
    ensures
        replace_all(s, pat, with) == s.take(m) + with + replace_all(s.skip(m + pat.len()), pat, with),
{
    lemma_replace_all_front(s, pat, with, m);
    let t = s.skip(m);
    assert(t.take(pat.len() as int) =~= s.subrange(m, m + pat.len()));
    assert(t.skip(pat.len() as int) =~= s.skip(m + pat.len()));
    assert(s.take(m) + (with + replace_all(s.skip(m + pat.len()), pat, with)) =~= s.take(m) + with
        + replace_all(s.skip(m + pat.len()), pat, with));
}

/// Text in which `pat` does not occur is left as it is.
pub proof fn lemma_replace_all_absent(s: Seq<char>, pat: Seq<char>, with: Seq<char>)
    requires
        pat.len() > 0,
        forall|q: int| !occurs_at(s, pat, q),
    ensures
        replace_all(s, pat, with) == s,
{
    lemma_replace_all_front(s, pat, with, s.len() as int);
    assert(s.take(s.len() as int) =~= s);
    assert(s.skip(s.len() as int) =~= Seq::<char>::empty());
}

/// Trimming two texts joined: the white space of the first, and of the second
/// too where the first is all white space.
pub proof fn lemma_trim_start_concat(a: Seq<char>, b: Seq<char>)
    ensures
        trim_start(a + b) == if trim_start(a).len() == 0 {
            trim_start(b)
        } else {
            trim_start(a) + b
        },
    decreases a.len(),
{
    if a.len() == 0 {
        assert(a + b =~= b);
    } else {
        assert((a + b)[0] == a[0]);
        if is_unicode_whitespace(a[0]) {
            lemma_trim_start_concat(a.drop_first(), b);
            assert((a + b).drop_first() =~= a.drop_first() + b);
        }
    }
}

/// No piece of a split holds the separator.
pub proof fn lemma_split_pieces_free(s: Seq<char>, sep: char)
    ensures
        forall|k: int| 0 <= k < split_on(s, sep).len() ==> free_of(#[trigger] split_on(s, sep)[k], sep),
    decreases s.len(),
{
    if s.len() > 0 {
        lemma_split_pieces_free(s.drop_last(), sep);
        lemma_split_nonempty(s.drop_last(), sep);
        let pieces = split_on(s.drop_last(), sep);
        if s.last() != sep {
            let updated = pieces.update(pieces.len() - 1, pieces.last().push(s.last()));
            assert forall|k: int| 0 <= k < updated.len() implies free_of(#[trigger] updated[k], sep) by {
                if k != pieces.len() - 1 {
                    assert(updated[k] == pieces[k]);
                } else {
                    let p = pieces.last();
                    assert(free_of(pieces[pieces.len() - 1], sep));
                    assert forall|j: int| 0 <= j < p.push(s.last()).len() implies p.push(s.last())[j] != sep by {
                        if j < p.len() {
                            assert(p.push(s.last())[j] == p[j]);
                        }
                    }
                }
            }
        } else {
            let pushed = pieces.push(Seq::<char>::empty());
            assert forall|k: int| 0 <= k < pushed.len() implies free_of(#[trigger] pushed[k], sep) by {
                if k < pieces.len() {
                    assert(pushed[k] == pieces[k]);
                }
            }
        }
    } else {
        assert(free_of(Seq::<char>::empty(), sep));
    }
}

} // verus!
