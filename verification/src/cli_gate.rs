//! The whole-program gate's helpers: the byte window around a first
//! difference, the first line of a captured stream, and argv building.
use vstd::prelude::*;
use vstd::utf8::{
    decode_utf8, encode_utf8, encode_utf8_decode_utf8, encode_utf8_valid_utf8, is_char_boundary,
    is_char_boundary_iff_not_is_continuation_byte, is_char_boundary_start_end_of_seq, valid_utf8,
    valid_utf8_split,
};
use vstd::string::StringSliceAdditionalSpecFns;
use crate::settings_probe::{lines_of, text_lines};
use crate::text::{
    chars_of, decimal, digits, find, find_first, is_unicode_whitespace, is_whitespace, join, push_char,
    push_digits, push_int, push_str, replace, replace_all, same_chars, string_of,
};

verus! {

/// The byte range `window` cuts: 30 bytes either side of `at`, clamped to the
/// text.
pub open spec fn window_range(len: int, at: int) -> (int, int) {
    let lo = if at >= 30 { at - 30 } else { 0 };
    let hi = if at + 30 <= len { at + 30 } else { len };
    (lo, hi)
}

/// What `window(text, at)` answers: the characters of the byte range when it
/// is non-empty-or-empty and both its ends are character boundaries, else
/// nothing.
pub open spec fn window_text(text: Seq<char>, at: int) -> Seq<char> {
    let bytes = encode_utf8(text);
    let (lo, hi) = window_range(bytes.len() as int, at);
    if lo <= hi && is_char_boundary(bytes, lo) && is_char_boundary(bytes, hi) {
        decode_utf8(bytes.subrange(lo, hi))
    } else {
        Seq::<char>::empty()
    }
}

/// `window(text, at)`: the text within 30 bytes of `at`, or the empty string
/// when that range would split a character.
pub fn window(text: &str, at: usize) -> (r: &str)
    ensures
        r@ == window_text(text@, at as int),
{
    let len = text.as_bytes().len();
    let lo = if at >= 30 { at - 30 } else { 0 };
    let hi = if at <= len && len - at >= 30 { at + 30 } else { len };
    proof {
        reveal_strlit("");
        encode_utf8_valid_utf8(text@);
    }
    if lo <= hi && text.is_char_boundary(lo) && text.is_char_boundary(hi) {
        let ghost bytes = encode_utf8(text@);
        let (head, _) = text.split_at(hi);
        proof {
            valid_utf8_split(bytes, hi as int);
            let hb = bytes.subrange(0, hi as int);
            assert(head.spec_bytes() =~= hb);
            if lo < hi {
                is_char_boundary_iff_not_is_continuation_byte(bytes, lo as int);
                is_char_boundary_iff_not_is_continuation_byte(hb, lo as int);
            } else {
                is_char_boundary_start_end_of_seq(hb);
            }
        }
        let (_, mid) = head.split_at(lo);
        proof {
            assert(mid.spec_bytes() =~= bytes.subrange(lo as int, hi as int));
            encode_utf8_decode_utf8(mid@);
            assert(mid@ == decode_utf8(bytes.subrange(lo as int, hi as int)));
            assert(window_range(bytes.len() as int, at as int) == (lo as int, hi as int));
        }
        mid
    } else {
        assert(""@ =~= Seq::<char>::empty());
        ""
    }
}

/// The text `String::from_utf8_lossy` makes of `bytes`: invalid sequences
/// replaced by U+FFFD.
pub uninterp spec fn lossy_utf8(bytes: Seq<u8>) -> Seq<char>;

/// `String::from_utf8_lossy(bytes)`: a function of the bytes alone, and for
/// valid UTF-8 exactly the text they encode; what it makes of invalid
/// sequences is left to the name.
#[verifier::external_body]
pub(crate) fn decode_lossy(bytes: &[u8]) -> (s: String)
    ensures
        s@ == lossy_utf8(bytes@),
        valid_utf8(bytes@) ==> s@ == decode_utf8(bytes@),
{
    String::from_utf8_lossy(bytes).into_owned()
}

/// The first line of `text` as `str::lines` yields it: everything before the
/// first line feed, without a carriage return just before it; the whole text
/// when there is no line feed.
pub open spec fn first_line_text(text: Seq<char>) -> Seq<char> {
    match find_first(text, seq!['\n']) {
        None => text,
        Some(i) => {
            let line = text.take(i);
            if line.len() > 0 && line.last() == '\r' { line.drop_last() } else { line }
        },
    }
}

/// The first line of a text; see [`first_line_text`].
pub fn first_line_of(text: &str) -> (out: String)
    ensures
        out@ == first_line_text(text@),
{
    let chars = chars_of(text);
    let newline = vec!['\n'];
    assert(newline@ =~= seq!['\n']);
    match find(&chars, &newline) {
        None => string_of(&chars),
        Some(i) => {
            proof {
                lemma_find_bound(chars@, newline@, 0);
            }
            let mut end = i;
            if end > 0 && chars[end - 1] == '\r' {
                end = end - 1;
            }
            let mut line: Vec<char> = Vec::new();
            let mut k: usize = 0;
            while k < end
                invariant
                    k <= end <= i <= chars@.len(),
                    line@ == chars@.take(k as int),
                decreases end - k,
            {
                line.push(chars[k]);
                k = k + 1;
                assert(line@ =~= chars@.take(k as int));
            }
            assert(line@ =~= first_line_text(text@));
            string_of(&line)
        },
    }
}

proof fn lemma_find_bound(s: Seq<char>, pat: Seq<char>, i: int)
    ensures
        crate::text::find_from(s, pat, i) matches Some(a) ==> a + pat.len() <= s.len(),
    decreases s.len() + 1 - i,
{
    if !(i < 0 || i + pat.len() > s.len()) && !crate::text::occurs_at(s, pat, i) {
        lemma_find_bound(s, pat, i + 1);
    }
}

/// `first_line(bytes)`: the first line of the bytes decoded with
/// replacement characters.
pub fn first_line(bytes: &[u8]) -> (out: String)
    ensures
        out@ == first_line_text(lossy_utf8(bytes@)),
{
    let text = decode_lossy(bytes);
    first_line_of(text.as_str())
}

/// `argv(parts)`: the parts as owned strings, in order.
pub fn argv(parts: &[&str]) -> (out: Vec<String>)
    ensures
        out@.len() == parts@.len(),
        forall|k: int| 0 <= k < parts@.len() ==> #[trigger] out@[k]@ == parts@[k]@,
{
    let mut out: Vec<String> = Vec::new();
    let mut i: usize = 0;
    while i < parts.len()
        invariant
            i <= parts@.len(),
            out@.len() == i,
            forall|k: int| 0 <= k < i ==> #[trigger] out@[k]@ == parts@[k]@,
        decreases parts.len() - i,
    {
        let chars = chars_of(parts[i]);
        out.push(string_of(&chars));
        i = i + 1;
    }
    out
}

/// How `{:?}` writes a string: between double quotes, with the escapes
/// `Debug` for `str` uses.
pub uninterp spec fn debug_quoted(s: Seq<char>) -> Seq<char>;

/// `format!("{:?}", s)`: `str`'s `Debug` rendering, a function of the text
/// alone; which characters it escapes, and how, is left to the name.
#[verifier::external_body]
fn debug_text(s: &str) -> (r: String)
    ensures
        r@ == debug_quoted(s@),
{
    format!("{:?}", s)
}

/// The index of the first byte at which `a` and `b` differ, or the shorter
/// length when one is a prefix of the other.
pub open spec fn first_mismatch(a: Seq<u8>, b: Seq<u8>) -> nat
    decreases a.len(),
{
    if a.len() == 0 || b.len() == 0 || a[0] != b[0] {
        0
    } else {
        1 + first_mismatch(a.drop_first(), b.drop_first())
    }
}

proof fn lemma_first_mismatch_at(a: Seq<u8>, b: Seq<u8>, i: int)
    requires
        0 <= i <= a.len(),
        i <= b.len(),
        forall|k: int| 0 <= k < i ==> a[k] == b[k],
        i == a.len() || i == b.len() || a[i] != b[i],
    ensures
        first_mismatch(a, b) == i,
    decreases i,
{
    if i > 0 {
        lemma_first_mismatch_at(a.drop_first(), b.drop_first(), i - 1);
    }
}

fn mismatch_at(a: &[u8], b: &[u8]) -> (i: usize)
    ensures
        i == first_mismatch(a@, b@),
        i <= a@.len(),
        i <= b@.len(),
{
    let mut i: usize = 0;
    while i < a.len() && i < b.len() && a[i] == b[i]
        invariant
            i <= a@.len(),
            i <= b@.len(),
            forall|k: int| 0 <= k < i ==> a@[k] == b@[k],
        decreases a.len() - i,
    {
        i = i + 1;
    }
    proof {
        lemma_first_mismatch_at(a@, b@, i as int);
    }
    i
}

/// `s` with every line feed written as ` | `.
pub open spec fn piped(s: Seq<char>) -> Seq<char> {
    replace_all(s, seq!['\n'], seq![' ', '|', ' '])
}

fn pipe(s: &str) -> (out: String)
    ensures
        out@ == piped(s@),
{
    let chars = chars_of(s);
    let nl = vec!['\n'];
    let bar = vec![' ', '|', ' '];
    assert(nl@ =~= seq!['\n']);
    assert(bar@ =~= seq![' ', '|', ' ']);
    let out = replace(&chars, &nl, &bar);
    string_of(&out)
}

/// `s` without its trailing white space (`str::trim_end`).
pub open spec fn trim_end(s: Seq<char>) -> Seq<char>
    decreases s.len(),
{
    if s.len() > 0 && is_unicode_whitespace(s.last()) {
        trim_end(s.drop_last())
    } else {
        s
    }
}

pub(crate) fn trimmed_end(s: &str) -> (out: String)
    ensures
        out@ == trim_end(s@),
{
    let chars = chars_of(s);
    let mut k: usize = chars.len();
    assert(chars@.take(k as int) =~= chars@);
    while k > 0 && is_whitespace(chars[k - 1])
        invariant
            k <= chars@.len(),
            trim_end(s@) == trim_end(chars@.take(k as int)),
            chars@ == s@,
        decreases k,
    {
        assert(chars@.take(k as int).drop_last() =~= chars@.take(k - 1));
        k = k - 1;
    }
    let mut out: Vec<char> = Vec::new();
    let mut i: usize = 0;
    while i < k
        invariant
            i <= k <= chars@.len(),
            out@ == chars@.take(i as int),
        decreases k - i,
    {
        out.push(chars[i]);
        i = i + 1;
        assert(out@ =~= chars@.take(i as int));
    }
    string_of(&out)
}

/// One row of the printed table: the stem or case, the word that sums it
/// up (`MATCH`, `DIFF` or `XDIFF`) and a detail.
pub struct Row {
    pub stem: String,
    pub verdict: &'static str,
    pub detail: String,
}

/// `written` or `absent`.
pub open spec fn presence(written: bool) -> Seq<char> {
    if written {
        "written"@
    } else {
        "absent"@
    }
}

/// `SES differs at byte <at> (jar <n> B, port <m> B); jar <q1> port <q2>`,
/// given the two windows already quoted.
pub open spec fn ses_difference_text(at: nat, jar_len: nat, port_len: nat, jar_quoted: Seq<char>, port_quoted: Seq<char>) -> Seq<char> {
    "SES differs at byte "@ + digits(at) + " (jar "@ + digits(jar_len) + " B, port "@ + digits(port_len)
        + " B); jar "@ + jar_quoted + " port "@ + port_quoted
}

/// `log: <side> <q1> port <q2>`, given the two logs already quoted.
pub open spec fn log_difference_text(side: Seq<char>, left_quoted: Seq<char>, port_quoted: Seq<char>) -> Seq<char> {
    "log: "@ + side + seq![' '] + left_quoted + " port "@ + port_quoted
}

/// The detail of an SES difference: see [`ses_difference_text`].
pub fn ses_difference(at: usize, jar_len: usize, port_len: usize, jar_quoted: &str, port_quoted: &str) -> (out: String)
    ensures
        out@ == ses_difference_text(at as nat, jar_len as nat, port_len as nat, jar_quoted@, port_quoted@),
{
    proof {
        reveal_strlit("SES differs at byte ");
        reveal_strlit(" (jar ");
        reveal_strlit(" B, port ");
        reveal_strlit(" B); jar ");
        reveal_strlit(" port ");
    }
    let mut detail = String::new();
    push_str(&mut detail, "SES differs at byte ");
    push_digits(&mut detail, at as u64);
    push_str(&mut detail, " (jar ");
    push_digits(&mut detail, jar_len as u64);
    push_str(&mut detail, " B, port ");
    push_digits(&mut detail, port_len as u64);
    push_str(&mut detail, " B); jar ");
    push_str(&mut detail, jar_quoted);
    push_str(&mut detail, " port ");
    push_str(&mut detail, port_quoted);
    detail
}

/// The detail of a log difference: see [`log_difference_text`].
pub fn log_difference(side: &str, left_quoted: &str, port_quoted: &str) -> (out: String)
    ensures
        out@ == log_difference_text(side@, left_quoted@, port_quoted@),
{
    proof {
        reveal_strlit("log: ");
        reveal_strlit(" port ");
    }
    let mut detail = String::new();
    push_str(&mut detail, "log: ");
    push_str(&mut detail, side);
    push_char(&mut detail, ' ');
    push_str(&mut detail, left_quoted);
    push_str(&mut detail, " port ");
    push_str(&mut detail, port_quoted);
    detail
}

/// The verdict and detail of a stem: the exit codes first, then the SES
/// files (presence, then the first differing byte with the text around it
/// on both sides), then the normalised logs; `MATCH` when all three agree.
pub open spec fn stem_outcome(
    jar_code: i32,
    port_code: i32,
    err_line: Seq<char>,
    jar_ses: Option<Seq<char>>,
    port_ses: Option<Seq<char>>,
    jar_log: Seq<char>,
    port_log: Seq<char>,
    ses_bytes: u64,
) -> (Seq<char>, Seq<char>) {
    if jar_code != port_code {
        (
            "DIFF"@,
            "exit: jar "@ + decimal(jar_code as int) + ", port "@ + decimal(port_code as int)
                + "; port stderr: "@ + err_line,
        )
    } else if !(jar_ses is Some && port_ses is Some) {
        ("DIFF"@, "SES presence: jar "@ + presence(jar_ses is Some) + ", port "@ + presence(port_ses is Some))
    } else if jar_ses.unwrap() != port_ses.unwrap() {
        let jar = jar_ses.unwrap();
        let port = port_ses.unwrap();
        let at = first_mismatch(encode_utf8(jar), encode_utf8(port));
        (
            "DIFF"@,
            ses_difference_text(
                at,
                encode_utf8(jar).len(),
                encode_utf8(port).len(),
                debug_quoted(window_text(jar, at as int)),
                debug_quoted(window_text(port, at as int)),
            ),
        )
    } else if jar_log != port_log {
        ("DIFF"@, log_difference_text("jar"@, debug_quoted(piped(jar_log)), debug_quoted(piped(port_log))))
    } else {
        (
            "MATCH"@,
            "exit "@ + decimal(jar_code as int) + ", "@ + digits(ses_bytes as nat) + " B SES, log "@
                + digits(text_lines(jar_log).len()) + " lines"@,
        )
    }
}

fn verdict_word(diff: bool) -> (r: &'static str)
    ensures
        r@ == (if diff {
            "DIFF"@
        } else {
            "MATCH"@
        }),
{
    if diff {
        "DIFF"
    } else {
        "MATCH"
    }
}

fn same_text(a: &str, b: &str) -> (r: bool)
    ensures
        r == (a@ == b@),
{
    let x = chars_of(a);
    let y = chars_of(b);
    let r = same_chars(&x, &y);
    r
}

/// `compare(stem, ..)`'s verdict for what the two runs left: the exit
/// codes, the router's stderr, the two SES texts (the jar's already
/// normalised), the two normalised logs and the size of the router's SES; see
/// [`stem_outcome`].
pub fn stem_row(
    stem: &str,
    jar_code: i32,
    port_code: i32,
    port_err: &[u8],
    jar_ses: Option<String>,
    port_ses: Option<String>,
    jar_log: &str,
    port_log: &str,
    ses_bytes: u64,
) -> (row: Row)
    ensures
        row.stem@ == stem@,
        (row.verdict@, row.detail@) == stem_outcome(
            jar_code,
            port_code,
            first_line_text(lossy_utf8(port_err@)),
            match jar_ses {
                Some(s) => Some(s@),
                None => None,
            },
            match port_ses {
                Some(s) => Some(s@),
                None => None,
            },
            jar_log@,
            port_log@,
            ses_bytes,
        ),
{
    let name = string_of(&chars_of(stem));
    let mut detail = String::new();
    proof {
        reveal_strlit("exit: jar ");
        reveal_strlit(", port ");
        reveal_strlit("; port stderr: ");
        reveal_strlit("SES presence: jar ");
        reveal_strlit("written");
        reveal_strlit("absent");
        reveal_strlit("SES differs at byte ");
        reveal_strlit(" (jar ");
        reveal_strlit(" B, port ");
        reveal_strlit(" B); jar ");
        reveal_strlit(" port ");
        reveal_strlit("log: jar ");
        reveal_strlit("exit ");
        reveal_strlit(", ");
        reveal_strlit(" B SES, log ");
        reveal_strlit(" lines");
        reveal_strlit("DIFF");
        reveal_strlit("MATCH");
    }
    if jar_code != port_code {
        push_str(&mut detail, "exit: jar ");
        push_int(&mut detail, jar_code as i64);
        push_str(&mut detail, ", port ");
        push_int(&mut detail, port_code as i64);
        push_str(&mut detail, "; port stderr: ");
        let line = first_line(port_err);
        push_str(&mut detail, line.as_str());
        return Row { stem: name, verdict: verdict_word(true), detail };
    }
    match (jar_ses, port_ses) {
        (Some(jar), Some(port)) => {
            if !same_text(jar.as_str(), port.as_str()) {
                let jb = jar.as_str().as_bytes();
                let pb = port.as_str().as_bytes();
                let at = mismatch_at(jb, pb);
                let jw = debug_text(window(jar.as_str(), at));
                let pw = debug_text(window(port.as_str(), at));
                let detail = ses_difference(at, jb.len(), pb.len(), jw.as_str(), pw.as_str());
                return Row { stem: name, verdict: verdict_word(true), detail };
            }
        },
        (jar, port) => {
            push_str(&mut detail, "SES presence: jar ");
            push_str(&mut detail, if jar.is_some() { "written" } else { "absent" });
            push_str(&mut detail, ", port ");
            push_str(&mut detail, if port.is_some() { "written" } else { "absent" });
            return Row { stem: name, verdict: verdict_word(true), detail };
        },
    }
    if !same_text(jar_log, port_log) {
        let j = debug_text(pipe(jar_log).as_str());
        let p = debug_text(pipe(port_log).as_str());
        let detail = log_difference("jar", j.as_str(), p.as_str());
        return Row { stem: name, verdict: verdict_word(true), detail };
    }
    push_str(&mut detail, "exit ");
    push_int(&mut detail, jar_code as i64);
    push_str(&mut detail, ", ");
    push_digits(&mut detail, ses_bytes);
    push_str(&mut detail, " B SES, log ");
    let lines = lines_of(jar_log);
    push_digits(&mut detail, lines.len() as u64);
    push_str(&mut detail, " lines");
    Row { stem: name, verdict: verdict_word(false), detail }
}

/// The log a refusal case expects: its lines joined with line feeds, with
/// a final line feed when there is any.
pub open spec fn expected_log_text(lines: Seq<Seq<char>>) -> Seq<char> {
    if lines.len() == 0 {
        Seq::<char>::empty()
    } else {
        join(lines, seq!['\n']).push('\n')
    }
}

/// The log a refusal case expects: see [`expected_log_text`].
pub fn expected_log(lines: &[&str]) -> (out: String)
    ensures
        out@ == expected_log_text(lines@.map_values(|l: &str| l@)),
{
    let ghost views = lines@.map_values(|l: &str| l@);
    let mut out = String::new();
    let mut i: usize = 0;
    while i < lines.len()
        invariant
            i <= lines@.len(),
            views == lines@.map_values(|l: &str| l@),
            out@ == join(views.take(i as int), seq!['\n']),
        decreases lines.len() - i,
    {
        assert(views.take(i + 1).drop_last() =~= views.take(i as int));
        if i > 0 {
            push_char(&mut out, '\n');
        }
        push_str(&mut out, lines[i]);
        i = i + 1;
        proof {
            if i == 1 {
                assert(out@ =~= join(views.take(1), seq!['\n']));
            }
        }
    }
    assert(views.take(lines.len() as int) =~= views);
    if lines.len() > 0 {
        push_char(&mut out, '\n');
    }
    out
}

/// The verdict and detail of a refusal case: the exit code first, then the
/// log; `MATCH` with the router's log, trimmed, when both agree.
pub open spec fn refusal_outcome(
    want_code: i32,
    want_log: Seq<char>,
    port_code: i32,
    port_log: Seq<char>,
) -> (Seq<char>, Seq<char>) {
    if want_code != port_code {
        ("DIFF"@, "exit: expected "@ + decimal(want_code as int) + ", port "@ + decimal(port_code as int))
    } else if want_log != port_log {
        ("DIFF"@, log_difference_text("expected"@, debug_quoted(piped(want_log)), debug_quoted(piped(port_log))))
    } else {
        ("MATCH"@, "exit "@ + decimal(port_code as int) + ", log ["@ + piped(trim_end(port_log)) + "]"@)
    }
}

/// The row of a refusal case: see [`refusal_outcome`].
pub fn refusal_row(name: &str, want_code: i32, want_log: &str, port_code: i32, port_log: &str) -> (row:
    Row)
    ensures
        row.stem@ == name@,
        (row.verdict@, row.detail@) == refusal_outcome(want_code, want_log@, port_code, port_log@),
{
    let stem = string_of(&chars_of(name));
    let mut detail = String::new();
    proof {
        reveal_strlit("exit: expected ");
        reveal_strlit(", port ");
        reveal_strlit("log: expected ");
        reveal_strlit(" port ");
        reveal_strlit("exit ");
        reveal_strlit(", log [");
        reveal_strlit("]");
        reveal_strlit("DIFF");
        reveal_strlit("MATCH");
    }
    if want_code != port_code {
        push_str(&mut detail, "exit: expected ");
        push_int(&mut detail, want_code as i64);
        push_str(&mut detail, ", port ");
        push_int(&mut detail, port_code as i64);
        return Row { stem, verdict: verdict_word(true), detail };
    }
    if !same_text(want_log, port_log) {
        let w = debug_text(pipe(want_log).as_str());
        let p = debug_text(pipe(port_log).as_str());
        let detail = log_difference("expected", w.as_str(), p.as_str());
        return Row { stem, verdict: verdict_word(true), detail };
    }
    push_str(&mut detail, "exit ");
    push_int(&mut detail, port_code as i64);
    push_str(&mut detail, ", log [");
    let t = trimmed_end(port_log);
    let p = pipe(t.as_str());
    push_str(&mut detail, p.as_str());
    push_str(&mut detail, "]");
    Row { stem, verdict: verdict_word(false), detail }
}

/// How many rows carry the verdict `word`.
pub open spec fn count_verdict(rows: Seq<Row>, word: Seq<char>) -> nat
    decreases rows.len(),
{
    if rows.len() == 0 {
        0
    } else {
        count_verdict(rows.drop_last(), word) + if rows.last().verdict@ == word {
            1nat
        } else {
            0nat
        }
    }
}

/// How many rows match and how many differ as expected; the run is clean
/// when those are all the rows.
pub fn tally(rows: &[Row]) -> (r: (usize, usize))
    ensures
        r.0 == count_verdict(rows@, "MATCH"@),
        r.1 == count_verdict(rows@, "XDIFF"@),
        r.0 + r.1 <= rows@.len(),
{
    let mut matched: usize = 0;
    let mut xdiff: usize = 0;
    let mut i: usize = 0;
    proof {
        reveal_strlit("MATCH");
        reveal_strlit("XDIFF");
    }
    while i < rows.len()
        invariant
            i <= rows@.len(),
            matched == count_verdict(rows@.take(i as int), "MATCH"@),
            xdiff == count_verdict(rows@.take(i as int), "XDIFF"@),
            matched + xdiff <= i,
        decreases rows.len() - i,
    {
        assert(rows@.take(i + 1).drop_last() =~= rows@.take(i as int));
        proof {
            reveal_strlit("MATCH");
            reveal_strlit("XDIFF");
            assert("MATCH"@[0] != "XDIFF"@[0]);
        }
        if same_text(rows[i].verdict, "MATCH") {
            matched = matched + 1;
        } else if same_text(rows[i].verdict, "XDIFF") {
            xdiff = xdiff + 1;
        }
        i = i + 1;
    }
    assert(rows@.take(rows.len() as int) =~= rows@);
    (matched, xdiff)
}

} // verus!
