//! The board-statistics probe's helpers: the byte-spec decoder, the source
//! column of a row, and the escaping of the fields and JSON it prints.
use vstd::prelude::*;
use vstd::utf8::{decode_utf8, encode_utf8, valid_utf8};
use crate::job_probe::{hex_bytes, is_hex_digit, hex_value, push_hex_bytes};
use crate::text::{chars_of, decimal, push_char, push_int, push_str, string_of, text_from_utf8};

verus! {

/// How `esc` writes one character: backslash, tab, carriage return and line
/// feed as two-character escapes, anything else as itself.
pub open spec fn esc_char(c: char) -> Seq<char> {
    if c == '\\' {
        seq!['\\', '\\']
    } else if c == '\t' {
        seq!['\\', 't']
    } else if c == '\r' {
        seq!['\\', 'r']
    } else if c == '\n' {
        seq!['\\', 'n']
    } else {
        seq![c]
    }
}

/// The `esc` rendering of every character of `s`, in order.
pub open spec fn escaped_text(s: Seq<char>) -> Seq<char>
    decreases s.len(),
{
    if s.len() == 0 {
        Seq::<char>::empty()
    } else {
        escaped_text(s.drop_last()) + esc_char(s.last())
    }
}

fn push_esc(out: &mut String, chars: &Vec<char>)
    ensures
        final(out)@ == old(out)@ + escaped_text(chars@),
{
    let ghost s = chars@;
    let mut i: usize = 0;
    while i < chars.len()
        invariant
            i <= chars@.len(),
            chars@ == s,
            out@ == old(out)@ + escaped_text(s.take(i as int)),
        decreases chars.len() - i,
    {
        assert(s.take(i + 1).drop_last() =~= s.take(i as int));
        let c = chars[i];
        if c == '\\' {
            push_char(out, '\\');
            push_char(out, '\\');
        } else if c == '\t' {
            push_char(out, '\\');
            push_char(out, 't');
        } else if c == '\r' {
            push_char(out, '\\');
            push_char(out, 'r');
        } else if c == '\n' {
            push_char(out, '\\');
            push_char(out, 'n');
        } else {
            push_char(out, c);
        }
        i = i + 1;
        assert(out@ =~= old(out)@ + escaped_text(s.take(i as int)));
    }
    assert(s.take(chars.len() as int) =~= s);
}

/// `esc(s)`: see [`esc_char`].
pub fn esc(s: &str) -> (out: String)
    ensures
        out@ == escaped_text(s@),
{
    let chars = chars_of(s);
    let mut out = String::new();
    push_esc(&mut out, &chars);
    out
}

/// An escaped field stays in its column and on its line: it holds no tab,
/// carriage return or line feed.
pub proof fn lemma_escaped_single_field(s: Seq<char>)
    ensures
        forall|k: int|
            0 <= k < escaped_text(s).len() ==> #[trigger] escaped_text(s)[k] != '\t'
                && escaped_text(s)[k] != '\r' && escaped_text(s)[k] != '\n',
    decreases s.len(),
{
    if s.len() > 0 {
        lemma_escaped_single_field(s.drop_last());
        let front = escaped_text(s.drop_last());
        let whole = escaped_text(s);
        assert forall|k: int| 0 <= k < whole.len() implies #[trigger] whole[k] != '\t' && whole[k]
            != '\r' && whole[k] != '\n' by {
            if k < front.len() {
                assert(whole[k] == front[k]);
            } else {
                assert(whole[k] == esc_char(s.last())[k - front.len()]);
            }
        }
    }
}

/// The character a two-character escape `\\x` stands for.
pub open spec fn escape_target(x: char) -> char {
    if x == 't' {
        '\t'
    } else if x == 'r' {
        '\r'
    } else if x == 'n' {
        '\n'
    } else {
        x
    }
}

/// Reading an escaped field left to right: a backslash and the character
/// after it stand for one character, any other character for itself.
pub open spec fn unescaped_field(s: Seq<char>) -> Seq<char>
    decreases s.len(),
{
    if s.len() == 0 {
        Seq::empty()
    } else if s[0] == '\\' && s.len() >= 2 {
        seq![escape_target(s[1])] + unescaped_field(s.skip(2))
    } else {
        seq![s[0]] + unescaped_field(s.skip(1))
    }
}

proof fn lemma_escaped_front(s: Seq<char>)
    requires
        s.len() > 0,
    ensures
        escaped_text(s) == esc_char(s[0]) + escaped_text(s.skip(1)),
    decreases s.len(),
{
    if s.len() > 1 {
        lemma_escaped_front(s.drop_last());
        assert(s.drop_last().skip(1) =~= s.skip(1).drop_last());
        assert(s.skip(1).last() == s.last());
        assert(s.drop_last()[0] == s[0]);
    } else {
        assert(s.skip(1) =~= Seq::<char>::empty());
        assert(s.drop_last() =~= Seq::<char>::empty());
        assert(s.last() == s[0]);
    }
}

/// Reading `esc`'s escapes back gives the text it escaped, so `esc` loses
/// nothing: two texts that escape alike are equal.
pub proof fn lemma_escape_reads_back(s: Seq<char>)
    ensures
        unescaped_field(escaped_text(s)) == s,
    decreases s.len(),
{
    if s.len() == 0 {
    } else {
        lemma_escaped_front(s);
        lemma_escape_reads_back(s.skip(1));
        let c = s[0];
        let rest = escaped_text(s.skip(1));
        let e = esc_char(c);
        let whole = e + rest;
        if e.len() == 2 {
            assert(whole[0] == '\\');
            assert(whole.skip(2) =~= rest);
            assert(escape_target(whole[1]) == c);
        } else {
            assert(e == seq![c]);
            assert(c != '\\');
            assert(whole.skip(1) =~= rest);
        }
        assert(seq![c] + s.skip(1) =~= s);
    }
}

/// `<null>`, how the probe prints Java's `null`.
pub open spec fn null_marker() -> Seq<char> {
    seq!['<', 'n', 'u', 'l', 'l', '>']
}

fn push_null(out: &mut String)
    ensures
        final(out)@ == old(out)@ + null_marker(),
{
    proof {
        reveal_strlit("<null>");
    }
    push_str(out, "<null>");
}

/// `string_field(s)`: `<null>` for the empty string (the router's spelling of
/// Java's `null`), else the escaped string between double quotes.
pub fn string_field(s: &str) -> (out: String)
    ensures
        s@.len() == 0 ==> out@ == null_marker(),
        s@.len() > 0 ==> out@ == seq!['"'] + escaped_text(s@) + seq!['"'],
{
    let mut out = String::new();
    let chars = chars_of(s);
    if chars.len() == 0 {
        push_null(&mut out);
    } else {
        push_char(&mut out, '"');
        push_esc(&mut out, &chars);
        push_char(&mut out, '"');
    }
    out
}

/// `int_text(n)`: `<null>` for an absent count, else the count in decimal.
pub fn int_text(n: Option<i32>) -> (out: String)
    ensures
        n is None ==> out@ == null_marker(),
        n matches Some(v) ==> out@ == decimal(v as int),
{
    let mut out = String::new();
    match n {
        None => push_null(&mut out),
        Some(v) => {
            push_int(&mut out, v as i64);
            assert(out@ =~= decimal(v as int));
        },
    }
    out
}

/// `hex(data)`: every byte as two lower-case hexadecimal digits.
pub fn hex(data: &[u8]) -> (out: String)
    ensures
        out@ == hex_bytes(data@),
{
    let mut out = String::new();
    push_hex_bytes(&mut out, data, data.len());
    assert(data@.take(data@.len() as int) =~= data@);
    out
}

/// Whether a character makes `src_of` fall back to hex: a control character
/// other than tab, carriage return and line feed.
pub open spec fn is_unprintable(c: char) -> bool {
    (c as u32) < 0x20 && c != '\t' && c != '\r' && c != '\n'
}

/// The source column of a row: `txt:` and the escaped text when the bytes are
/// UTF-8 with no unprintable character, else `hex:` and their hex.
pub open spec fn source_text(data: Seq<u8>) -> Seq<char> {
    if valid_utf8(data) && forall|k: int|
        0 <= k < decode_utf8(data).len() ==> !is_unprintable(#[trigger] decode_utf8(data)[k]) {
        seq!['t', 'x', 't', ':'] + escaped_text(decode_utf8(data))
    } else {
        seq!['h', 'e', 'x', ':'] + hex_bytes(data)
    }
}

/// `src_of(data)`: see [`source_text`].
pub fn src_of(data: &[u8]) -> (out: String)
    ensures
        out@ == source_text(data@),
{
    let mut out = String::new();
    if let Some(text) = text_from_utf8(data) {
        let chars = chars_of(text.as_str());
        let mut printable = true;
        let mut i: usize = 0;
        while i < chars.len()
            invariant
                i <= chars@.len(),
                chars@ == decode_utf8(data@),
                printable == forall|k: int| 0 <= k < i ==> !is_unprintable(#[trigger] chars@[k]),
            decreases chars.len() - i,
        {
            let c = chars[i];
            if (c as u32) < 0x20 && c != '\t' && c != '\r' && c != '\n' {
                printable = false;
            }
            i = i + 1;
        }
        if printable {
            proof {
                reveal_strlit("txt:");
            }
            push_str(&mut out, "txt:");
            push_esc(&mut out, &chars);
            return out;
        }
    }
    proof {
        reveal_strlit("hex:");
    }
    push_str(&mut out, "hex:");
    push_hex_bytes(&mut out, data, data.len());
    assert(data@.take(data@.len() as int) =~= data@);
    out
}

/// The number of leading ASCII hexadecimal digits of `s`.
pub open spec fn leading_hex_count(s: Seq<char>) -> nat
    decreases s.len(),
{
    if s.len() > 0 && is_hex_digit(s[0]) {
        1 + leading_hex_count(s.drop_first())
    } else {
        0
    }
}

/// Whether `spec` is a spec this decoder reads: it starts with `s:` or `h:`.
pub open spec fn spec_decodes(spec: Seq<char>) -> bool {
    spec.len() >= 2 && spec[1] == ':' && (spec[0] == 's' || spec[0] == 'h')
}

/// The bytes a spec stands for: the UTF-8 of the text after `s:`; after `h:`,
/// the bytes of its leading hex digits taken in pairs (an odd last digit is
/// left to the text), followed by the UTF-8 of the rest.
pub open spec fn decoded(spec: Seq<char>) -> Seq<u8> {
    let rest = spec.skip(2);
    if spec[0] == 's' {
        encode_utf8(rest)
    } else {
        let n = leading_hex_count(rest) - leading_hex_count(rest) % 2;
        Seq::new((n / 2) as nat, |k: int| (hex_value(rest[2 * k]) * 16 + hex_value(rest[2 * k + 1])) as u8)
            + encode_utf8(rest.skip(n))
    }
}

proof fn lemma_leading_hex(s: Seq<char>, k: int)
    requires
        0 <= k < leading_hex_count(s),
    ensures
        is_hex_digit(s[k]),
        leading_hex_count(s) <= s.len(),
    decreases s.len(),
{
    if k > 0 {
        lemma_leading_hex(s.drop_first(), k - 1);
    } else {
        lemma_leading_hex_bound(s);
    }
}

proof fn lemma_leading_hex_bound(s: Seq<char>)
    ensures
        leading_hex_count(s) <= s.len(),
    decreases s.len(),
{
    if s.len() > 0 && is_hex_digit(s[0]) {
        lemma_leading_hex_bound(s.drop_first());
    }
}

fn hex_digit_value(c: char) -> (v: u8)
    requires
        is_hex_digit(c),
    ensures
        v as int == hex_value(c),
{
    if '0' <= c && c <= '9' {
        ((c as u32) - ('0' as u32)) as u8
    } else if 'a' <= c && c <= 'f' {
        ((c as u32) - ('a' as u32) + 10) as u8
    } else {
        ((c as u32) - ('A' as u32) + 10) as u8
    }
}

fn utf8_of(cs: &Vec<char>, from: usize) -> (out: Vec<u8>)
    requires
        from <= cs@.len(),
    ensures
        out@ == encode_utf8(cs@.skip(from as int)),
{
    let mut rest: Vec<char> = Vec::new();
    let mut i: usize = from;
    while i < cs.len()
        invariant
            from <= i <= cs@.len(),
            rest@ == cs@.subrange(from as int, i as int),
        decreases cs.len() - i,
    {
        rest.push(cs[i]);
        i = i + 1;
        assert(rest@ =~= cs@.subrange(from as int, i as int));
    }
    assert(rest@ =~= cs@.skip(from as int));
    let text = string_of(&rest);
    let bytes = text.as_str().as_bytes();
    let mut out: Vec<u8> = Vec::new();
    let mut k: usize = 0;
    while k < bytes.len()
        invariant
            k <= bytes@.len(),
            out@ == bytes@.take(k as int),
        decreases bytes.len() - k,
    {
        out.push(bytes[k]);
        k = k + 1;
        assert(out@ =~= bytes@.take(k as int));
    }
    assert(bytes@.take(bytes@.len() as int) =~= bytes@);
    out
}

/// `decode(spec)`: see [`decoded`].
pub fn decode(spec: &str) -> (out: Vec<u8>)
    requires
        spec_decodes(spec@),
    ensures
        out@ == decoded(spec@),
{
    let cs = chars_of(spec);
    if cs[0] == 's' {
        return utf8_of(&cs, 2);
    }
    let ghost rest = cs@.skip(2);
    let mut n: usize = 0;
    assert(rest.skip(0) =~= rest);
    while n < cs.len() - 2 && is_hex_char(cs[2 + n])
        invariant
            2 + n <= cs@.len(),
            rest == cs@.skip(2),
            leading_hex_count(rest) == n + leading_hex_count(rest.skip(n as int)),
        decreases cs.len() - n,
    {
        assert(rest.skip(n as int).drop_first() =~= rest.skip(n + 1));
        n = n + 1;
    }
    proof {
        if n < cs.len() - 2 {
            assert(rest.skip(n as int)[0] == cs@[2 + n]);
        }
        assert(leading_hex_count(rest.skip(n as int)) == 0);
    }
    let even = n - n % 2;
    let mut out: Vec<u8> = Vec::new();
    let mut k: usize = 0;
    while k < even / 2
        invariant
            even == n - n % 2,
            leading_hex_count(rest) == n,
            2 + n <= cs@.len(),
            rest == cs@.skip(2),
            k <= even / 2,
            out@ == Seq::new(k as nat, |q: int| (hex_value(rest[2 * q]) * 16 + hex_value(rest[2 * q + 1])) as u8),
        decreases even / 2 - k,
    {
        proof {
            lemma_leading_hex(rest, 2 * k as int);
            lemma_leading_hex(rest, 2 * k + 1);
        }
        let hi = hex_digit_value(cs[2 + 2 * k]);
        let lo = hex_digit_value(cs[2 + 2 * k + 1]);
        out.push(hi * 16 + lo);
        k = k + 1;
        assert(out@ =~= Seq::new(k as nat, |q: int| (hex_value(rest[2 * q]) * 16 + hex_value(rest[2 * q + 1])) as u8));
    }
    let tail = utf8_of(&cs, 2 + even);
    assert(cs@.skip(2 + even) =~= rest.skip(even as int));
    let mut k2: usize = 0;
    let ghost head = out@;
    while k2 < tail.len()
        invariant
            k2 <= tail@.len(),
            out@ == head + tail@.take(k2 as int),
        decreases tail.len() - k2,
    {
        out.push(tail[k2]);
        k2 = k2 + 1;
        assert(out@ =~= head + tail@.take(k2 as int));
    }
    assert(tail@.take(tail@.len() as int) =~= tail@);
    out
}

fn is_hex_char(c: char) -> (b: bool)
    ensures
        b == is_hex_digit(c),
{
    ('0' <= c && c <= '9') || ('a' <= c && c <= 'f') || ('A' <= c && c <= 'F')
}

} // verus!
