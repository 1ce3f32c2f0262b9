//! The small renderings the routing, scoring, optimizer and timespan probes
//! print: JSON-style quoting, id lists, boxed integers, tagged lines, and the
//! timespan row with its capped timeout.
use vstd::prelude::*;
use crate::job_probe::{quote, quoted_body};
use crate::text::{
    bracketed, bracketed_list, chars_of, decimal, hex_digits, int_values, push_char, push_hex_padded,
    push_int, push_str, zero_padded, lemma_hex_digits_printable,
    lemma_zero_padded_printable,
};

verus! {

/// How the routing probe writes one character of a JSON string: `"` and `\`
/// behind a backslash, line feed, carriage return and tab as `\n`, `\r`,
/// `\t`, any other control character as `\u` and four hexadecimal digits,
/// anything else as itself.
pub open spec fn json_char(c: char) -> Seq<char> {
    if c == '"' {
        seq!['\\', '"']
    } else if c == '\\' {
        seq!['\\', '\\']
    } else if c == '\n' {
        seq!['\\', 'n']
    } else if c == '\r' {
        seq!['\\', 'r']
    } else if c == '\t' {
        seq!['\\', 't']
    } else if (c as u32) < 0x20 {
        seq!['\\', 'u'] + zero_padded(hex_digits(c as u32 as nat), 4)
    } else {
        seq![c]
    }
}

/// Every character of `s` written as [`json_char`] writes it.
pub open spec fn json_body(s: Seq<char>) -> Seq<char>
    decreases s.len(),
{
    if s.len() == 0 {
        Seq::<char>::empty()
    } else {
        json_body(s.drop_last()) + json_char(s.last())
    }
}

/// A JSON string body holds no control character: every character below a
/// space is written as an escape.
pub proof fn lemma_json_body_no_controls(s: Seq<char>)
    ensures
        forall|k: int| 0 <= k < json_body(s).len() ==> (#[trigger] json_body(s)[k]) as u32 >= 0x20,
    decreases s.len(),
{
    if s.len() > 0 {
        lemma_json_body_no_controls(s.drop_last());
        let c = s.last();
        let front = json_body(s.drop_last());
        let tail = json_char(c);
        if (c as u32) < 0x20 && c != '\n' && c != '\r' && c != '\t' {
            lemma_hex_digits_printable(c as u32 as nat);
            lemma_zero_padded_printable(hex_digits(c as u32 as nat), 4);
            let digits = zero_padded(hex_digits(c as u32 as nat), 4);
            assert forall|k: int| 0 <= k < tail.len() implies (#[trigger] tail[k]) as u32 >= 0x20 by {
                if k >= 2 {
                    assert(tail[k] == digits[k - 2]);
                }
            }
        }
        let whole = json_body(s);
        assert forall|k: int| 0 <= k < whole.len() implies (#[trigger] whole[k]) as u32 >= 0x20 by {
            if k < front.len() {
                assert(whole[k] == front[k]);
            } else {
                assert(whole[k] == tail[k - front.len()]);
            }
        }
    }
}

/// `quote(value)` of the routing probe: `value` as a JSON string.
pub fn json_quote(value: &str) -> (out: String)
    ensures
        out@ == seq!['"'] + json_body(value@) + seq!['"'],
{
    let chars = chars_of(value);
    let mut out = String::new();
    push_char(&mut out, '"');
    let mut i: usize = 0;
    while i < chars.len()
        invariant
            i <= chars@.len(),
            chars@ == value@,
            out@ == seq!['"'] + json_body(chars@.take(i as int)),
        decreases chars.len() - i,
    {
        assert(chars@.take(i + 1).drop_last() =~= chars@.take(i as int));
        let c = chars[i];
        if c == '"' {
            push_char(&mut out, '\\');
            push_char(&mut out, '"');
        } else if c == '\\' {
            push_char(&mut out, '\\');
            push_char(&mut out, '\\');
        } else if c == '\n' {
            push_char(&mut out, '\\');
            push_char(&mut out, 'n');
        } else if c == '\r' {
            push_char(&mut out, '\\');
            push_char(&mut out, 'r');
        } else if c == '\t' {
            push_char(&mut out, '\\');
            push_char(&mut out, 't');
        } else if (c as u32) < 0x20 {
            push_char(&mut out, '\\');
            push_char(&mut out, 'u');
            push_hex_padded(&mut out, c as u32 as u64, 4);
        } else {
            push_char(&mut out, c);
        }
        i = i + 1;
        assert(out@ =~= seq!['"'] + json_body(chars@.take(i as int)));
    }
    assert(chars@.take(chars.len() as int) =~= chars@);
    push_char(&mut out, '"');
    out
}

/// The ids as integers.
pub open spec fn id_values(ids: Seq<u32>) -> Seq<int> {
    ids.map_values(|x: u32| x as int)
}

/// `ids(items)`: the ids, in the order given, as `[a,b,c]`.
pub fn ids(items: &[u32]) -> (out: String)
    ensures
        out@ == bracketed(id_values(items@), seq![',']),
{
    let mut wide: Vec<i64> = Vec::new();
    let mut k: usize = 0;
    while k < items.len()
        invariant
            k <= items@.len(),
            wide@.len() == k,
            forall|q: int| 0 <= q < k ==> #[trigger] wide@[q] == items@[q] as i64,
        decreases items.len() - k,
    {
        wide.push(items[k] as i64);
        k = k + 1;
    }
    assert(int_values(wide@) =~= id_values(items@));
    proof {
        reveal_strlit(",");
        assert(","@ =~= seq![',']);
    }
    bracketed_list(&wide, ",")
}

/// A boxed integer as Java's string concatenation writes it.
pub open spec fn boxed_text(value: Option<i32>) -> Seq<char> {
    match value {
        Some(v) => decimal(v as int),
        None => seq!['n', 'u', 'l', 'l'],
    }
}

/// `integer(value)`: the value in decimal, or `null`.
pub fn integer(value: Option<i32>) -> (out: String)
    ensures
        out@ == boxed_text(value),
{
    let mut out = String::new();
    match value {
        Some(v) => push_int(&mut out, v as i64),
        None => {
            proof {
                reveal_strlit("null");
            }
            push_str(&mut out, "null");
        },
    }
    assert(out@ =~= boxed_text(value));
    out
}

/// `p(out, tag, key, value)`'s line: `tag key=value`.
pub fn tagged(tag: &str, key: &str, value: &str) -> (out: String)
    ensures
        out@ == tag@ + seq![' '] + key@ + seq!['='] + value@,
{
    let mut out = String::new();
    push_str(&mut out, tag);
    push_char(&mut out, ' ');
    push_str(&mut out, key);
    push_char(&mut out, '=');
    push_str(&mut out, value);
    out
}

/// A parsed timeout capped at `max`.
pub open spec fn capped_spec(value: Option<i64>, max: i64) -> Option<i64> {
    match value {
        Some(t) => Some(if t > max {
            max
        } else {
            t
        }),
        None => None,
    }
}

/// The scheduler's timeout arithmetic: the parsed value, capped at `max`.
pub fn capped_timeout(value: Option<i64>, max: i64) -> (r: Option<i64>)
    ensures
        r == capped_spec(value, max),
{
    match value {
        Some(t) => Some(if t > max {
            max
        } else {
            t
        }),
        None => None,
    }
}

/// A boxed long, or `null`.
pub open spec fn long_text(value: Option<i64>) -> Seq<char> {
    match value {
        Some(v) => decimal(v as int),
        None => seq!['n', 'u', 'l', 'l'],
    }
}

fn push_long(out: &mut String, value: Option<i64>)
    ensures
        final(out)@ == old(out)@ + long_text(value),
{
    match value {
        Some(v) => push_int(out, v),
        None => {
            proof {
                reveal_strlit("null");
            }
            push_str(out, "null");
        },
    }
}

/// The timespan probe's row for one input: the quoted input, its converted
/// form, the parsed seconds, and the capped timeout twice (as the deadline's
/// offset from the epoch), tab separated.
pub open spec fn timespan_line(input: Seq<char>, conv: Seq<char>, value: Option<i64>, max: i64) -> Seq<
    char,
> {
    seq!['R', 'A', 'W', '\t', '"'] + quoted_body(input) + seq!['"', '\t', 'C', 'O', 'N', 'V', '\t']
        + conv + seq!['\t', 'P', 'A', 'R', 'S', 'E', '\t'] + long_text(value) + seq![
        '\t',
        'C',
        'A',
        'P',
        'P',
        'E',
        'D',
        '\t',
    ] + long_text(capped_spec(value, max)) + seq!['\t', 'O', 'F', 'F', 'S', 'E', 'T', '\t']
        + long_text(capped_spec(value, max))
}

/// `RAW\t<quoted>\tCONV\t<conv>\tPARSE\t<value>\tCAPPED\t<capped>\tOFFSET\t<capped>`.
pub fn timespan_row(input: &str, conv: &str, value: Option<i64>, max: i64) -> (out: String)
    ensures
        out@ == timespan_line(input@, conv@, value, max),
{
    let capped = capped_timeout(value, max);
    let mut out = String::new();
    proof {
        reveal_strlit("RAW\t");
        reveal_strlit("\tCONV\t");
        reveal_strlit("\tPARSE\t");
        reveal_strlit("\tCAPPED\t");
        reveal_strlit("\tOFFSET\t");
    }
    push_str(&mut out, "RAW\t");
    let q = quote(input);
    push_str(&mut out, q.as_str());
    push_str(&mut out, "\tCONV\t");
    push_str(&mut out, conv);
    push_str(&mut out, "\tPARSE\t");
    push_long(&mut out, value);
    push_str(&mut out, "\tCAPPED\t");
    push_long(&mut out, capped);
    push_str(&mut out, "\tOFFSET\t");
    push_long(&mut out, capped);
    assert(out@ =~= timespan_line(input@, conv@, value, max));
    out
}

} // verus!
