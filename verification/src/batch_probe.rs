//! The batch-loop probe's small decisions: which modes it runs, the words
//! and limits its fixture table uses, the argv it hands the command line,
//! boxed counters, and the pass file it scrapes from its own transcript.
use vstd::prelude::*;
use crate::cli_gate::{decode_lossy, lossy_utf8};
use crate::job_probe::{decimal_value, is_digit, lemma_decimal_prefix};
use crate::kinds::{java_algorithm_type, java_task_state, NamedAlgorithmType, TaskState};
use crate::settings_probe::{find_char, is_pair, lines_of, pair_key, pair_value, text_lines};
use crate::text::{
    chars_of, decimal, digit_char, digits, push_char, push_int, push_str, split, split_on,
};

verus! {

/// Whether `s` begins with `p`.
pub open spec fn starts_with(s: Seq<char>, p: Seq<char>) -> bool {
    s.len() >= p.len() && s.take(p.len() as int) == p
}

fn has_prefix(s: &str, p: &str) -> (b: bool)
    ensures
        b == starts_with(s@, p@),
{
    let x = chars_of(s);
    let y = chars_of(p);
    if x.len() < y.len() {
        return false;
    }
    let mut i: usize = 0;
    while i < y.len()
        invariant
            i <= y@.len(),
            y@.len() <= x@.len(),
            x@ == s@,
            y@ == p@,
            forall|k: int| 0 <= k < i ==> x@[k] == y@[k],
        decreases y.len() - i,
    {
        if x[i] != y[i] {
            assert(x@.take(y@.len() as int)[i as int] != y@[i as int]);
            return false;
        }
        i = i + 1;
    }
    assert(x@.take(y@.len() as int) =~= y@);
    true
}

/// `is_optimizer_mode(mode)`: the modes that begin with `optimizer`.
pub fn is_optimizer_mode(mode: &str) -> (b: bool)
    ensures
        b == starts_with(mode@, seq!['o', 'p', 't', 'i', 'm', 'i', 'z', 'e', 'r']),
{
    proof {
        reveal_strlit("optimizer");
        assert("optimizer"@ =~= seq!['o', 'p', 't', 'i', 'm', 'i', 'z', 'e', 'r']);
    }
    has_prefix(mode, "optimizer")
}

/// `is_batch_mode(mode)`: the modes that begin with `batch`.
pub fn is_batch_mode(mode: &str) -> (b: bool)
    ensures
        b == starts_with(mode@, seq!['b', 'a', 't', 'c', 'h']),
{
    proof {
        reveal_strlit("batch");
        assert("batch"@ =~= seq!['b', 'a', 't', 'c', 'h']);
    }
    has_prefix(mode, "batch")
}

/// The fixture table's word for a flag.
pub open spec fn on_off_text(value: bool) -> Seq<char> {
    if value {
        seq!['o', 'n']
    } else {
        seq!['o', 'f', 'f']
    }
}

/// `on_off(arg)`: `on` is `true`, `off` is `false`.
pub fn on_off(arg: &str) -> (b: bool)
    requires
        arg@ == on_off_text(true) || arg@ == on_off_text(false),
    ensures
        arg@ == on_off_text(b),
{
    let cs = chars_of(arg);
    cs.len() == 2
}

/// `on_off_name(value)`: the inverse of [`on_off`].
pub fn on_off_name(value: bool) -> (r: &'static str)
    ensures
        r@ == on_off_text(value),
{
    proof {
        reveal_strlit("on");
        reveal_strlit("off");
    }
    if value {
        "on"
    } else {
        "off"
    }
}

/// A flag's word names that flag alone: reading back the word written for
/// `value` gives `value`.
pub proof fn lemma_on_off_round_trip(value: bool, other: bool)
    ensures
        on_off_text(value) == on_off_text(other) <==> value == other,
{
    if value != other {
        assert(on_off_text(value).len() != on_off_text(other).len());
    }
}

/// `true` or `false`.
pub open spec fn bool_text(b: bool) -> Seq<char> {
    if b {
        seq!['t', 'r', 'u', 'e']
    } else {
        seq!['f', 'a', 'l', 's', 'e']
    }
}

/// The output file of a run: the input with its `.dsn` suffix replaced by
/// `.ses`, or the input itself when it has no such suffix.
pub open spec fn output_of(input: Seq<char>) -> Seq<char> {
    if input.len() >= 4 && input.skip(input.len() - 4) == seq!['.', 'd', 's', 'n'] {
        input.take(input.len() - 4) + seq!['.', 's', 'e', 's']
    } else {
        input
    }
}

/// The argv the command line gets for a run.
pub open spec fn batch_args(input: Seq<char>, max_passes: i32, fanout: bool, optimizer: bool) -> Seq<
    Seq<char>,
> {
    seq![
        seq!['-', 'd', 'e'],
        input,
        seq!['-', 'd', 'o'],
        output_of(input),
        seq!['-', 'm', 'p'],
        decimal(max_passes as int),
        "--router.fanout.enabled="@ + bool_text(fanout),
        "--router.optimizer.enabled="@ + bool_text(optimizer),
    ]
}

/// `batch_argv(dsn, max_passes, fanout, optimizer)` on the path's text: see
/// [`batch_args`].
pub fn batch_argv(input: &str, max_passes: i32, fanout: bool, optimizer: bool) -> (args: Vec<String>)
    ensures
        args@.map_values(|a: String| a@) == batch_args(input@, max_passes, fanout, optimizer),
{
    let cs = chars_of(input);
    let n = cs.len();
    let ends_dsn = n >= 4 && cs[n - 4] == '.' && cs[n - 3] == 'd' && cs[n - 2] == 's' && cs[n - 1]
        == 'n';
    let mut output = String::new();
    if ends_dsn {
        let mut i: usize = 0;
        while i < n - 4
            invariant
                n == cs@.len(),
                n >= 4,
                i <= n - 4,
                output@ == cs@.take(i as int),
            decreases n - 4 - i,
        {
            push_char(&mut output, cs[i]);
            i = i + 1;
            assert(output@ =~= cs@.take(i as int));
        }
        push_str(&mut output, ".ses");
        proof {
            reveal_strlit(".ses");
            assert(cs@.skip(n - 4) =~= seq!['.', 'd', 's', 'n']);
        }
    } else {
        push_str(&mut output, input);
        proof {
            if n >= 4 {
                let tail = cs@.skip(n - 4);
                if tail == seq!['.', 'd', 's', 'n'] {
                    assert(tail[0] == cs@[n - 4]);
                    assert(tail[1] == cs@[n - 3]);
                    assert(tail[2] == cs@[n - 2]);
                    assert(tail[3] == cs@[n - 1]);
                }
            }
        }
    }
    assert(output@ =~= output_of(input@));
    let mut passes = String::new();
    push_int(&mut passes, max_passes as i64);
    let mut fan = String::new();
    push_str(&mut fan, "--router.fanout.enabled=");
    push_str(&mut fan, if fanout { "true" } else { "false" });
    let mut opt = String::new();
    push_str(&mut opt, "--router.optimizer.enabled=");
    push_str(&mut opt, if optimizer { "true" } else { "false" });
    proof {
        reveal_strlit("true");
        reveal_strlit("false");
        reveal_strlit("-de");
        reveal_strlit("-do");
        reveal_strlit("-mp");
        reveal_strlit("--router.fanout.enabled=");
        reveal_strlit("--router.optimizer.enabled=");
    }
    let mut input_copy = String::new();
    push_str(&mut input_copy, input);
    assert(fan@ =~= "--router.fanout.enabled="@ + bool_text(fanout));
    assert(opt@ =~= "--router.optimizer.enabled="@ + bool_text(optimizer));
    assert(input_copy@ =~= input@);
    let args = vec![
        string_from("-de"),
        input_copy,
        string_from("-do"),
        output,
        string_from("-mp"),
        passes,
        fan,
        opt,
    ];
    let ghost got = args@.map_values(|a: String| a@);
    let ghost want = batch_args(input@, max_passes, fanout, optimizer);
    assert(got[0] == want[0]);
    assert(got[1] == want[1]);
    assert(got[2] == want[2]);
    assert(got[3] == want[3]);
    assert(got[4] == want[4]);
    assert(got[5] == want[5]);
    assert(got[6] == want[6]);
    assert(got[7] == want[7]);
    assert(args@.map_values(|a: String| a@) =~= batch_args(input@, max_passes, fanout, optimizer));
    args
}

fn string_from(s: &str) -> (out: String)
    ensures
        out@ == s@,
{
    let mut out = String::new();
    push_str(&mut out, s);
    out
}

/// `java_boxed(value)`: `String.valueOf` of a boxed integer, `null` when
/// absent.
pub fn java_boxed(value: Option<i64>) -> (out: String)
    ensures
        out@ == match value {
            Some(v) => decimal(v as int),
            None => seq!['n', 'u', 'l', 'l'],
        },
{
    match value {
        Some(v) => {
            let mut out = String::new();
            push_int(&mut out, v);
            out
        },
        None => {
            proof {
                reveal_strlit("null");
            }
            string_from("null")
        },
    }
}

/// The digits of an integer literal: what follows an optional sign.
pub open spec fn literal_digits(s: Seq<char>) -> Seq<char> {
    if s.len() > 0 && (s[0] == '-' || s[0] == '+') {
        s.drop_first()
    } else {
        s
    }
}

/// Whether every character is a decimal digit.
pub open spec fn all_digits(ds: Seq<char>) -> bool {
    forall|k: int| 0 <= k < ds.len() ==> is_digit(#[trigger] ds[k])
}

/// The value of an integer literal as `str::parse::<i32>` reads it: an
/// optional sign, then one or more decimal digits.
pub open spec fn literal_value(s: Seq<char>) -> Option<int> {
    let ds = literal_digits(s);
    if ds.len() == 0 || !all_digits(ds) {
        None
    } else if s[0] == '-' {
        Some(-(decimal_value(ds) as int))
    } else {
        Some(decimal_value(ds) as int)
    }
}

/// What `str::parse::<i32>` answers: the literal's value when it fits.
pub open spec fn parsed_i32(s: Seq<char>) -> Option<i32> {
    match literal_value(s) {
        Some(v) => if i32::MIN <= v <= i32::MAX {
            Some(v as i32)
        } else {
            None
        },
        None => None,
    }
}

/// `str::parse::<i32>`: see [`parsed_i32`].
pub fn parse_i32(s: &str) -> (r: Option<i32>)
    ensures
        r == parsed_i32(s@),
{
    let cs = chars_of(s);
    let signed = cs.len() > 0 && (cs[0] == '-' || cs[0] == '+');
    let start: usize = if signed {
        1
    } else {
        0
    };
    let ghost ds = cs@.skip(start as int);
    assert(signed ==> ds =~= cs@.drop_first());
    assert(!signed ==> ds =~= cs@);
    if start == cs.len() {
        return None;
    }
    let mut n: i64 = 0;
    let mut i: usize = start;
    while i < cs.len()
        invariant
            start <= i <= cs@.len(),
            start <= 1,
            cs@ == s@,
            (start == 1) == (s@.len() > 0 && (s@[0] == '-' || s@[0] == '+')),
            ds == cs@.skip(start as int),
            ds == (if start == 1 {
                s@.drop_first()
            } else {
                s@
            }),
            n == decimal_value(ds.take(i - start)),
            n <= 0x8000_0000,
            forall|k: int| 0 <= k < i - start ==> is_digit(#[trigger] ds[k]),
        decreases cs.len() - i,
    {
        let c = cs[i];
        assert(ds[i - start] == cs@[i as int]);
        if !('0' <= c && c <= '9') {
            assert(!is_digit(ds[i - start]));
            assert(ds == literal_digits(s@));
            assert(!all_digits(ds));
            return None;
        }
        assert(ds.take(i + 1 - start).drop_last() =~= ds.take(i - start));
        n = n * 10 + (c as u32 - '0' as u32) as i64;
        i = i + 1;
        assert(ds.take(i - start).last() == c);
        assert(n == decimal_value(ds.take(i - start)));
        if n > 0x8000_0000 {
            proof {
                lemma_decimal_prefix(ds, i - start);
                assert(decimal_value(ds) >= n);
                match literal_value(s@) {
                    Some(v) => {
                        if s@[0] == '-' {
                            assert(v == -(decimal_value(ds) as int));
                        } else {
                            assert(v == decimal_value(ds) as int);
                        }
                        assert(v < i32::MIN || v > i32::MAX);
                    },
                    None => {},
                }
            }
            return None;
        }
    }
    assert(ds.take(i - start) =~= ds);
    if cs[0] == '-' {
        Some((-n) as i32)
    } else if n <= 0x7FFF_FFFF {
        Some(n as i32)
    } else {
        None
    }
}

/// How a limit is read from its word: `all` is no limit, anything else an
/// integer, and `Err` when it is neither.
pub open spec fn limit_read(s: Seq<char>) -> Result<Option<i32>, ()> {
    if s == seq!['a', 'l', 'l'] {
        Ok(None)
    } else {
        match parsed_i32(s) {
            Some(v) => Ok(Some(v)),
            None => Err(()),
        }
    }
}

/// The word of a limit: `all`, or the limit in decimal.
pub open spec fn limit_text(limit: Option<i32>) -> Seq<char> {
    match limit {
        Some(v) => decimal(v as int),
        None => seq!['a', 'l', 'l'],
    }
}

/// `boxed_limit(arg)`: `None` for `all`, the value of an `i32` literal;
/// any other text is left out, as the probe panics on it (see
/// [`limit_readable`]).
pub fn boxed_limit(arg: &str) -> (r: Option<i32>)
    requires
        limit_read(arg@) is Ok,
    ensures
        limit_read(arg@) == Ok::<Option<i32>, ()>(r),
{
    let cs = chars_of(arg);
    if cs.len() == 3 && cs[0] == 'a' && cs[1] == 'l' && cs[2] == 'l' {
        assert(arg@ =~= seq!['a', 'l', 'l']);
        return None;
    }
    match parse_i32(arg) {
        Some(v) => Some(v),
        None => None,
    }
}

/// Whether `arg` is a limit `boxed_limit` reads: `all` or an `i32`.
pub fn limit_readable(arg: &str) -> (b: bool)
    ensures
        b == (limit_read(arg@) is Ok),
{
    let cs = chars_of(arg);
    if cs.len() == 3 && cs[0] == 'a' && cs[1] == 'l' && cs[2] == 'l' {
        assert(arg@ =~= seq!['a', 'l', 'l']);
        return true;
    }
    parse_i32(arg).is_some()
}

/// `limit_name(limit)`: the inverse of [`boxed_limit`]; see [`limit_text`].
pub fn limit_name(limit: Option<i32>) -> (out: String)
    ensures
        out@ == limit_text(limit),
{
    match limit {
        Some(v) => {
            let mut out = String::new();
            push_int(&mut out, v as i64);
            out
        },
        None => {
            proof {
                reveal_strlit("all");
            }
            string_from("all")
        },
    }
}

proof fn lemma_digit_value(d: int)
    requires
        0 <= d < 10,
    ensures
        digit_char(d) as int - '0' as int == d,
        is_digit(digit_char(d)),
{
}

/// The digits of `n` are digits, and read back as `n`.
pub proof fn lemma_digits_read_back(n: nat)
    ensures
        digits(n).len() >= 1,
        all_digits(digits(n)),
        decimal_value(digits(n)) == n,
    decreases n,
{
    if n >= 10 {
        lemma_digits_read_back(n / 10);
        lemma_digit_value((n % 10) as int);
        let d = digits(n / 10);
        let e = digits(n);
        assert(e == d.push(digit_char((n % 10) as int)));
        assert(e.drop_last() =~= d);
        assert(decimal_value(e) == decimal_value(d) * 10 + (n % 10));
        assert((n / 10) * 10 + n % 10 == n);
        assert forall|k: int| 0 <= k < e.len() implies is_digit(#[trigger] e[k]) by {
            if k < d.len() {
                assert(e[k] == d[k]);
            }
        }
    } else {
        lemma_digit_value(n as int);
        let e = digits(n);
        assert(e == seq![digit_char(n as int)]);
        assert(e.drop_last() =~= Seq::<char>::empty());
        assert(decimal_value(e.drop_last()) == 0);
        assert(e.last() == digit_char(n as int));
        assert(decimal_value(e) == n);
    }
}

/// An `i32` written in decimal parses back as itself.
pub proof fn lemma_parse_decimal(v: i32)
    ensures
        parsed_i32(decimal(v as int)) == Some(v),
{
    let n: nat = if v < 0 {
        (-v) as nat
    } else {
        v as nat
    };
    lemma_digits_read_back(n);
    let s = decimal(v as int);
    if v < 0 {
        assert(s == seq!['-'] + digits(n));
        assert(literal_digits(s) =~= digits(n));
    } else {
        assert(s == digits(n));
        assert(digits(n)[0] != '-' && digits(n)[0] != '+') by {
            assert(is_digit(digits(n)[0]));
        }
        assert(literal_digits(s) =~= digits(n));
    }
}

/// A limit's word reads back as that limit.
pub proof fn lemma_limit_round_trip(limit: Option<i32>)
    ensures
        limit_read(limit_text(limit)) == Ok::<Option<i32>, ()>(limit),
{
    match limit {
        Some(v) => {
            lemma_parse_decimal(v);
            let s = decimal(v as int);
            let n: nat = if v < 0 {
                (-v) as nat
            } else {
                v as nat
            };
            lemma_digits_read_back(n);
            if s == seq!['a', 'l', 'l'] {
                if v < 0 {
                    assert(s[0] == '-');
                } else {
                    assert(is_digit(digits(n)[0]));
                }
            }
        },
        None => {},
    }
}

/// `stat(value)`: a statistics counter as a count; a negative counter
/// counts as none.
pub fn stat(value: Option<i32>) -> (n: usize)
    requires
        value is Some,
    ensures
        n == (if value.unwrap() < 0 {
            0
        } else {
            value.unwrap() as int
        }),
{
    let v = value.unwrap();
    if v < 0 {
        0
    } else {
        v as usize
    }
}

/// Whether a transcript line is a pass record: it begins with `PASS `.
pub open spec fn is_pass_line(l: Seq<char>) -> bool {
    starts_with(l, seq!['P', 'A', 'S', 'S', ' '])
}

/// A field `key=value` as the JSON member `"key":value`.
pub open spec fn field_json(f: Seq<char>) -> Seq<char> {
    seq!['"'] + pair_key(f) + seq!['"', ':'] + pair_value(f)
}

/// The fields as comma-separated members.
pub open spec fn fields_json(fs: Seq<Seq<char>>) -> Seq<char>
    decreases fs.len(),
{
    if fs.len() == 0 {
        Seq::<char>::empty()
    } else {
        fields_json(fs.drop_last()) + (if fs.len() > 1 {
            seq![',']
        } else {
            Seq::<char>::empty()
        }) + field_json(fs.last())
    }
}

/// The fields of a pass line: its space-separated words after `PASS `.
pub open spec fn pass_fields(l: Seq<char>) -> Seq<Seq<char>> {
    split_on(l.skip(5), ' ')
}

/// The JSON object of a pass line, on a line of its own.
pub open spec fn pass_json(l: Seq<char>) -> Seq<char> {
    seq!['{'] + fields_json(pass_fields(l)) + seq!['}', '\n']
}

/// The pass file of a transcript: one JSON line per pass line, in order.
pub open spec fn passes_rendered(lines: Seq<Seq<char>>) -> Seq<char>
    decreases lines.len(),
{
    if lines.len() == 0 {
        Seq::<char>::empty()
    } else {
        passes_rendered(lines.drop_last()) + if is_pass_line(lines.last()) {
            pass_json(lines.last())
        } else {
            Seq::<char>::empty()
        }
    }
}

/// Whether every field of every pass line is a `key=value` pair.
pub open spec fn passes_readable(lines: Seq<Seq<char>>) -> bool {
    forall|k: int, j: int|
        0 <= k < lines.len() && is_pass_line(lines[k]) && 0 <= j < pass_fields(lines[k]).len()
            ==> is_pair(#[trigger] pass_fields(lines[k])[j])
}

fn render_pass(out: &mut String, line: &Vec<char>) -> (ok: bool)
    requires
        is_pass_line(line@),
    ensures
        ok == (forall|j: int|
            0 <= j < pass_fields(line@).len() ==> is_pair(#[trigger] pass_fields(line@)[j])),
        ok ==> final(out)@ == old(out)@ + pass_json(line@),
{
    let mut tuple: Vec<char> = Vec::new();
    let mut i: usize = 5;
    while i < line.len()
        invariant
            5 <= i <= line@.len(),
            tuple@ == line@.subrange(5, i as int),
        decreases line.len() - i,
    {
        tuple.push(line[i]);
        i = i + 1;
        assert(tuple@ =~= line@.subrange(5, i as int));
    }
    assert(tuple@ =~= line@.skip(5));
    let fields = split(&tuple, ' ');
    let ghost fs = pass_fields(line@);
    let ghost start = out@;
    push_char(out, '{');
    let mut k: usize = 0;
    while k < fields.len()
        invariant
            k <= fields@.len(),
            fields@.len() == fs.len(),
            fs == pass_fields(line@),
            forall|q: int| 0 <= q < fields@.len() ==> #[trigger] fields@[q]@ == fs[q],
            forall|q: int| 0 <= q < k ==> is_pair(#[trigger] fs[q]),
            out@ == start + seq!['{'] + fields_json(fs.take(k as int)),
        decreases fields.len() - k,
    {
        let field = &fields[k];
        assert(fs.take(k + 1).drop_last() =~= fs.take(k as int));
        match find_char(field, '=') {
            None => {
                assert(!is_pair(fs[k as int]));
                return false;
            },
            Some(at) => {
                assert(at < field.len());
                if k > 0 {
                    push_char(out, ',');
                }
                push_char(out, '"');
                let ghost mark = out@;
                let mut q: usize = 0;
                while q < at
                    invariant
                        q <= at,
                        at < field@.len(),
                        out@ == mark + field@.take(q as int),
                    decreases at - q,
                {
                    push_char(out, field[q]);
                    q = q + 1;
                    assert(out@ =~= mark + field@.take(q as int));
                }
                push_char(out, '"');
                push_char(out, ':');
                let ghost mark2 = out@;
                let mut r: usize = at + 1;
                while r < field.len()
                    invariant
                        at + 1 <= r <= field@.len(),
                        out@ == mark2 + field@.subrange(at + 1, r as int),
                    decreases field.len() - r,
                {
                    push_char(out, field[r]);
                    r = r + 1;
                    assert(out@ =~= mark2 + field@.subrange(at + 1, r as int));
                }
                assert(field@.subrange(at + 1, field.len() as int) =~= field@.skip(at + 1));
            },
        }
        k = k + 1;
        assert(out@ =~= start + seq!['{'] + fields_json(fs.take(k as int)));
    }
    assert(fs.take(fields.len() as int) =~= fs);
    push_char(out, '}');
    push_char(out, '\n');
    assert(out@ =~= start + pass_json(line@));
    true
}

/// `write_passes`' rendering of a transcript's text: one JSON object per
/// `PASS` line; `None` when a field of one has no `=`.
pub fn passes_json(text: &str) -> (r: Option<String>)
    ensures
        r is Some <==> passes_readable(text_lines(text@)),
        r matches Some(s) ==> s@ == passes_rendered(text_lines(text@)),
{
    let lines = lines_of(text);
    let ghost all = text_lines(text@);
    let mut out = String::new();
    let mut i: usize = 0;
    assert(all.take(0) =~= Seq::<Seq<char>>::empty());
    while i < lines.len()
        invariant
            i <= lines@.len(),
            lines@.len() == all.len(),
            all == text_lines(text@),
            forall|k: int| 0 <= k < lines@.len() ==> #[trigger] lines@[k]@ == all[k],
            passes_readable(all.take(i as int)),
            out@ == passes_rendered(all.take(i as int)),
        decreases lines.len() - i,
    {
        let line = &lines[i];
        assert(all.take(i + 1).drop_last() =~= all.take(i as int));
        let pass = line.len() >= 5 && line[0] == 'P' && line[1] == 'A' && line[2] == 'S' && line[3]
            == 'S' && line[4] == ' ';
        proof {
            if line@.len() >= 5 {
                let head = line@.take(5);
                if head == seq!['P', 'A', 'S', 'S', ' '] {
                    assert(head[0] == line@[0] && head[1] == line@[1] && head[2] == line@[2]
                        && head[3] == line@[3] && head[4] == line@[4]);
                }
                if pass {
                    assert(head =~= seq!['P', 'A', 'S', 'S', ' ']);
                }
            }
        }
        if pass {
            if !render_pass(&mut out, line) {
                proof {
                    let j = choose|j: int|
                        0 <= j < pass_fields(line@).len() && !is_pair(pass_fields(line@)[j]);
                    assert(all[i as int] == line@);
                    assert(!is_pair(pass_fields(all[i as int])[j]));
                }
                return None;
            }
        }
        i = i + 1;
        proof {
            let now = all.take(i as int);
            assert forall|k: int, j: int|
                0 <= k < now.len() && is_pass_line(now[k]) && 0 <= j < pass_fields(now[k]).len()
                    implies is_pair(#[trigger] pass_fields(now[k])[j]) by {
                if k < i - 1 {
                    assert(now[k] == all.take(i - 1)[k]);
                }
            }
        }
    }
    assert(all.take(lines.len() as int) =~= all);
    Some(out)
}

/// `write_passes`' content for a transcript's bytes, read as
/// `String::from_utf8_lossy` reads them; see [`passes_json`].
pub fn passes_file(transcript: &[u8]) -> (r: Option<String>)
    ensures
        r is Some <==> passes_readable(text_lines(lossy_utf8(transcript@))),
        r matches Some(s) ==> s@ == passes_rendered(text_lines(lossy_utf8(transcript@))),
{
    let text = decode_lossy(transcript);
    passes_json(text.as_str())
}

/// What the pipeline reports to the probe's progress sink, as far as the
/// probe reads it: a task's change of state, or anything else.
#[derive(Clone, Copy, PartialEq, Eq, Debug)]
pub enum RunEvent {
    TaskStateChanged { algorithm: NamedAlgorithmType, state: TaskState },
    Other,
}

/// The changes of state among `events`, in the order they came.
pub open spec fn state_changes(events: Seq<RunEvent>) -> Seq<(NamedAlgorithmType, TaskState)>
    decreases events.len(),
{
    if events.len() == 0 {
        Seq::empty()
    } else {
        let rest = state_changes(events.drop_last());
        match events.last() {
            RunEvent::TaskStateChanged { algorithm, state } => rest.push((algorithm, state)),
            RunEvent::Other => rest,
        }
    }
}

/// `task_states(events)`: see [`state_changes`].
pub fn task_states(events: &[RunEvent]) -> (out: Vec<(NamedAlgorithmType, TaskState)>)
    ensures
        out@ == state_changes(events@),
{
    let mut out: Vec<(NamedAlgorithmType, TaskState)> = Vec::new();
    let mut i: usize = 0;
    while i < events.len()
        invariant
            i <= events@.len(),
            out@ == state_changes(events@.take(i as int)),
        decreases events.len() - i,
    {
        assert(events@.take(i + 1).drop_last() =~= events@.take(i as int));
        match events[i] {
            RunEvent::TaskStateChanged { algorithm, state } => out.push((algorithm, state)),
            RunEvent::Other => {},
        }
        i = i + 1;
    }
    assert(events@.take(events@.len() as int) =~= events@);
    out
}

/// `TaskState.toString()`.
pub open spec fn task_state_word(state: TaskState) -> Seq<char> {
    match state {
        TaskState::Idle => "IDLE"@,
        TaskState::Started => "STARTED"@,
        TaskState::Running => "RUNNING"@,
        TaskState::Finished => "FINISHED"@,
        TaskState::Cancelled => "CANCELLED"@,
        TaskState::TimedOut => "TIMED_OUT"@,
    }
}

/// `NamedAlgorithmType.toString()`.
pub open spec fn algorithm_word(algorithm: NamedAlgorithmType) -> Seq<char> {
    match algorithm {
        NamedAlgorithmType::Router => "ROUTER"@,
        NamedAlgorithmType::Optimizer => "OPTIMIZER"@,
    }
}

/// The transcript's lines for `changes`, each
/// `EVENT algorithm=<ALGORITHM> state=<STATE>` and a newline.
pub open spec fn event_lines_text(changes: Seq<(NamedAlgorithmType, TaskState)>) -> Seq<char>
    decreases changes.len(),
{
    if changes.len() == 0 {
        Seq::empty()
    } else {
        let (algorithm, state) = changes.last();
        event_lines_text(changes.drop_last()) + "EVENT algorithm="@ + algorithm_word(algorithm)
            + " state="@ + task_state_word(state) + seq!['\n']
    }
}

/// `event_lines(events)`: the `EVENT` lines of the task changes among
/// `events`; see [`event_lines_text`].
pub fn event_lines(events: &[RunEvent]) -> (out: String)
    ensures
        out@ == event_lines_text(state_changes(events@)),
{
    let changes = task_states(events);
    let mut out = String::new();
    let mut i: usize = 0;
    while i < changes.len()
        invariant
            i <= changes@.len(),
            out@ == event_lines_text(changes@.take(i as int)),
        decreases changes.len() - i,
    {
        let (algorithm, state) = changes[i];
        assert(changes@.take(i + 1).drop_last() =~= changes@.take(i as int));
        let ghost before = out@;
        let algorithm_text = java_algorithm_type(algorithm);
        let state_text = java_task_state(state);
        push_str(&mut out, "EVENT algorithm=");
        push_str(&mut out, algorithm_text);
        push_str(&mut out, " state=");
        push_str(&mut out, state_text);
        push_char(&mut out, '\n');
        assert(out@ =~= before + "EVENT algorithm="@ + algorithm_word(algorithm) + " state="@
            + task_state_word(state) + seq!['\n']);
        i = i + 1;
    }
    assert(changes@.take(changes@.len() as int) =~= changes@);
    out
}

/// The limits the batch loop's stopping rules read: the first pass the
/// rules apply from, the period of the restore check, the passes without
/// improvement that end the loop, and those after which the fanout is
/// retried.
#[derive(Clone, Copy, PartialEq, Eq, Debug)]
pub struct LoopLimits {
    pub stop_at_pass_minimum: i32,
    pub stop_at_pass_modulo: i32,
    pub stagnation_pass_limit: i32,
    pub fanout_recovery_passes: i32,
}

/// The counting state of the batch loop's stagnation rules (the scores they
/// compare stay with the caller): passes without improvement, whether the
/// fanout was retried, and the pass and incomplete count of the best score.
#[derive(Clone, Copy, PartialEq, Eq, Debug)]
pub struct Stagnation {
    pub counter: i32,
    pub recovery_applied: bool,
    pub pass_of_best: i32,
    pub incompletes_at_best: usize,
}

/// The state before the first pass.
pub fn stagnation_start() -> (s: Stagnation)
    ensures
        s == (Stagnation { counter: 0, recovery_applied: false, pass_of_best: 0, incompletes_at_best: 0 }),
{
    Stagnation { counter: 0, recovery_applied: false, pass_of_best: 0, incompletes_at_best: 0 }
}

/// The two gates of the restore check after a pass: enough boards in the
/// history, and a pass on the period from the first counted pass; a stop
/// request opens both.
pub open spec fn restore_gates_spec(history_size: int, pass: int, stop_requested: bool, limits: LoopLimits) -> (bool, bool) {
    (
        history_size >= limits.stop_at_pass_minimum || stop_requested,
        (pass % (limits.stop_at_pass_modulo as int) == 0 && pass >= limits.stop_at_pass_minimum)
            || stop_requested,
    )
}

/// `(sizeGate, modGate)`: see [`restore_gates_spec`]. The restore fires where
/// both are open and the history holds a better board.
pub fn restore_gates(history_size: usize, pass: i32, stop_requested: bool, limits: LoopLimits) -> (g: (
    bool,
    bool,
))
    requires
        limits.stop_at_pass_modulo > 0,
        pass >= 0,
    ensures
        g == restore_gates_spec(history_size as int, pass as int, stop_requested, limits),
{
    let size = if history_size > 0x7FFF_FFFF { 0x7FFF_FFFFi32 } else { history_size as i32 };
    let size_gate = size >= limits.stop_at_pass_minimum || stop_requested;
    let mod_gate = (pass % limits.stop_at_pass_modulo == 0 && pass >= limits.stop_at_pass_minimum)
        || stop_requested;
    (size_gate, mod_gate)
}

/// The state after a board was restored from the history: the count of
/// passes without improvement starts again.
pub fn restored(s: Stagnation) -> (t: Stagnation)
    ensures
        t == (Stagnation { counter: 0, ..s }),
{
    Stagnation { counter: 0, ..s }
}

/// What the local stagnation rule asks of the caller after a pass: to take
/// the current score as the last best, to retry the fanout first (and then
/// take the score after it), to end the loop, or to go on to the global rule.
#[derive(Clone, Copy, PartialEq, Eq, Debug)]
pub struct LocalOutcome {
    pub reset_last_best: bool,
    pub recover: bool,
    pub local_break: bool,
    pub check_global: bool,
}

/// The local rule on a pass (`pass`, whether routing goes on, the
/// incompletes left, whether the fanout is on, and whether the score beats
/// the last best by the threshold or the threshold alone). From the first
/// counted pass, while routing goes on: an improvement resets the count;
/// otherwise it grows, the fanout is retried once when incompletes are left
/// after enough stalled passes (which resets the count), and the loop ends at
/// the limit. Before that, or once routing stopped, a fully routed board
/// above the threshold resets the count.
pub open spec fn local_step_spec(
    s: Stagnation,
    limits: LoopLimits,
    pass: i32,
    continuing: bool,
    incompletes: usize,
    fanout_enabled: bool,
    beats_last_best: bool,
    above_threshold: bool,
) -> (Stagnation, LocalOutcome) {
    if pass >= limits.stop_at_pass_minimum && continuing {
        if beats_last_best {
            (
                Stagnation { counter: 0, ..s },
                LocalOutcome { reset_last_best: true, recover: false, local_break: false, check_global: true },
            )
        } else {
            let grown = s.counter + 1;
            let recover = fanout_enabled && !s.recovery_applied && incompletes > 0 && grown
                >= limits.fanout_recovery_passes;
            let counter = if recover { 0 } else { grown };
            let local_break = counter >= limits.stagnation_pass_limit;
            (
                Stagnation { counter: counter as i32, recovery_applied: s.recovery_applied || recover, ..s },
                LocalOutcome { reset_last_best: recover, recover, local_break, check_global: !local_break },
            )
        }
    } else if incompletes == 0 && above_threshold {
        (
            Stagnation { counter: 0, ..s },
            LocalOutcome { reset_last_best: true, recover: false, local_break: false, check_global: false },
        )
    } else {
        (s, LocalOutcome { reset_last_best: false, recover: false, local_break: false, check_global: false })
    }
}

/// The local stagnation rule: see [`local_step_spec`].
pub fn local_step(
    s: Stagnation,
    limits: LoopLimits,
    pass: i32,
    continuing: bool,
    incompletes: usize,
    fanout_enabled: bool,
    beats_last_best: bool,
    above_threshold: bool,
) -> (r: (Stagnation, LocalOutcome))
    requires
        s.counter < i32::MAX,
    ensures
        r == local_step_spec(
            s,
            limits,
            pass,
            continuing,
            incompletes,
            fanout_enabled,
            beats_last_best,
            above_threshold,
        ),
{
    if pass >= limits.stop_at_pass_minimum && continuing {
        if beats_last_best {
            (
                Stagnation { counter: 0, ..s },
                LocalOutcome { reset_last_best: true, recover: false, local_break: false, check_global: true },
            )
        } else {
            let grown = s.counter + 1;
            let recover = fanout_enabled && !s.recovery_applied && incompletes > 0 && grown
                >= limits.fanout_recovery_passes;
            let counter = if recover { 0 } else { grown };
            let local_break = counter >= limits.stagnation_pass_limit;
            (
                Stagnation { counter, recovery_applied: s.recovery_applied || recover, ..s },
                LocalOutcome { reset_last_best: recover, recover, local_break, check_global: !local_break },
            )
        }
    } else if incompletes == 0 && above_threshold {
        (
            Stagnation { counter: 0, ..s },
            LocalOutcome { reset_last_best: true, recover: false, local_break: false, check_global: false },
        )
    } else {
        (s, LocalOutcome { reset_last_best: false, recover: false, local_break: false, check_global: false })
    }
}

/// The global rule on a pass whose local rule went on: a score beating the
/// best so far by the threshold makes this pass the best (with its
/// incompletes); otherwise the loop ends once the best is the limit of passes
/// behind. Answers the new state, whether to take the score as the global
/// best, and whether to end the loop.
pub open spec fn global_step_spec(
    s: Stagnation,
    limits: LoopLimits,
    pass: i32,
    incompletes: usize,
    beats_global_best: bool,
) -> (Stagnation, bool, bool) {
    if beats_global_best {
        (Stagnation { pass_of_best: pass, incompletes_at_best: incompletes, ..s }, true, false)
    } else {
        (s, false, pass - s.pass_of_best >= limits.stagnation_pass_limit)
    }
}

/// The global stagnation rule: see [`global_step_spec`].
pub fn global_step(s: Stagnation, limits: LoopLimits, pass: i32, incompletes: usize, beats_global_best: bool) -> (r: (
    Stagnation,
    bool,
    bool,
))
    ensures
        r == global_step_spec(s, limits, pass, incompletes, beats_global_best),
{
    if beats_global_best {
        (Stagnation { pass_of_best: pass, incompletes_at_best: incompletes, ..s }, true, false)
    } else {
        let behind = pass as i64 - s.pass_of_best as i64;
        (s, false, behind >= limits.stagnation_pass_limit as i64)
    }
}

/// The fanout is retried at most once in a run: once retried, no later pass
/// retries it, and the state remembers the retry; and a pass that goes on
/// to the global rule leaves the count of stalled passes below the limit.
pub proof fn lemma_recovery_once(
    s: Stagnation,
    limits: LoopLimits,
    pass: i32,
    continuing: bool,
    incompletes: usize,
    fanout_enabled: bool,
    beats_last_best: bool,
    above_threshold: bool,
)
    requires
        s.counter < i32::MAX,
    ensures
        ({
            let (t, o) = local_step_spec(
                s,
                limits,
                pass,
                continuing,
                incompletes,
                fanout_enabled,
                beats_last_best,
                above_threshold,
            );
            &&& s.recovery_applied ==> !o.recover && t.recovery_applied
            &&& o.recover ==> t.recovery_applied && t.counter == 0
            &&& (o.check_global && !beats_last_best) ==> t.counter < limits.stagnation_pass_limit
        }),
{
}

/// What the local rule does on a pass, in terms of its inputs: the fanout is
/// retried only with the fanout on, not yet retried, incompletes left and
/// enough stalled passes on a counted pass without improvement, and always
/// then; a retry resets the count and is remembered, nothing else changes
/// whether it happened; a stalled counted pass without a retry counts one
/// more pass and ends the loop exactly at the limit; an improvement on a
/// counted pass resets the count and goes on; the best pass and its
/// incompletes are never touched.
pub proof fn lemma_local_rule(
    s: Stagnation,
    limits: LoopLimits,
    pass: i32,
    continuing: bool,
    incompletes: usize,
    fanout_enabled: bool,
    beats_last_best: bool,
    above_threshold: bool,
)
    requires
        s.counter < i32::MAX,
    ensures
        ({
            let (t, o) = local_step_spec(
                s,
                limits,
                pass,
                continuing,
                incompletes,
                fanout_enabled,
                beats_last_best,
                above_threshold,
            );
            let counted = pass >= limits.stop_at_pass_minimum && continuing;
            let stalled = counted && !beats_last_best;
            &&& o.recover == (stalled && fanout_enabled && !s.recovery_applied && incompletes > 0
                && s.counter + 1 >= limits.fanout_recovery_passes)
            &&& !fanout_enabled ==> !o.recover && t.recovery_applied == s.recovery_applied
            &&& t.recovery_applied == (s.recovery_applied || o.recover)
            &&& o.recover ==> t.counter == 0 && o.reset_last_best && o.local_break == (limits.stagnation_pass_limit
                <= 0)
            &&& (stalled && !o.recover) ==> t.counter == s.counter + 1 && !o.reset_last_best
                && o.local_break == (s.counter + 1 >= limits.stagnation_pass_limit)
            &&& stalled ==> o.check_global == !o.local_break
            &&& (counted && beats_last_best) ==> t.counter == 0 && o.reset_last_best && o.check_global
                && !o.local_break && !o.recover
            &&& !counted ==> !o.recover && !o.local_break && !o.check_global && t.recovery_applied
                == s.recovery_applied
            &&& (!counted && !(incompletes == 0 && above_threshold)) ==> t == s && !o.reset_last_best
            &&& (!counted && incompletes == 0 && above_threshold) ==> t.counter == 0 && o.reset_last_best
            &&& t.pass_of_best == s.pass_of_best && t.incompletes_at_best == s.incompletes_at_best
        }),
{
}

/// The global rule in terms of its inputs: a pass beating the best so far
/// becomes the best, with its incompletes, and the loop goes on; otherwise
/// the state stays and the loop ends exactly when the best is at least the
/// limit of passes behind. The stall count and the fanout retry are never
/// touched.
pub proof fn lemma_global_rule(s: Stagnation, limits: LoopLimits, pass: i32, incompletes: usize, beats_global_best: bool)
    ensures
        ({
            let (t, take, stop) = global_step_spec(s, limits, pass, incompletes, beats_global_best);
            &&& take == beats_global_best
            &&& beats_global_best ==> t.pass_of_best == pass && t.incompletes_at_best == incompletes
                && !stop
            &&& !beats_global_best ==> t == s && stop == (pass - s.pass_of_best
                >= limits.stagnation_pass_limit)
            &&& t.counter == s.counter && t.recovery_applied == s.recovery_applied
        }),
{
}

/// The restore gates in terms of their inputs: a stop request opens both;
/// otherwise the size gate opens exactly when the history holds the first
/// counted pass's number of boards, and the period gate exactly on a counted
/// pass that is a multiple of the period.
pub proof fn lemma_restore_gates(history_size: int, pass: int, stop_requested: bool, limits: LoopLimits)
    requires
        limits.stop_at_pass_modulo > 0,
    ensures
        ({
            let (size_gate, mod_gate) = restore_gates_spec(history_size, pass, stop_requested, limits);
            &&& stop_requested ==> size_gate && mod_gate
            &&& !stop_requested ==> size_gate == (history_size >= limits.stop_at_pass_minimum)
            &&& !stop_requested ==> mod_gate == (pass >= limits.stop_at_pass_minimum && pass
                % (limits.stop_at_pass_modulo as int) == 0)
        }),
{
}

} // verus!
