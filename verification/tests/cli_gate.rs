use copper_differential::cli_gate::{argv, first_line, first_line_of, window};
use copper_differential::cli_gate::{
    expected_log, log_difference, refusal_row, ses_difference, stem_row, tally, Row,
};

#[test]
fn window_takes_thirty_bytes_each_way() {
    let text: String = (0..100).map(|i| char::from(b'a' + (i % 26) as u8)).collect();
    assert_eq!(window(&text, 50), &text[20..80]);
    assert_eq!(window(&text, 10), &text[0..40]);
    assert_eq!(window(&text, 95), &text[65..100]);
    assert_eq!(window("short", 0), "short");
}

#[test]
fn window_is_empty_when_it_would_split_a_character() {
    let text = format!("{}\u{e9}{}", "x".repeat(29), "y".repeat(40));
    // 59 - 30 = 29 is the first byte of the two-byte character: a boundary.
    assert_eq!(window(&text, 59), &text[29..]);
    // 60 - 30 = 30 falls inside it.
    assert_eq!(window(&text, 60), "");
}

#[test]
fn first_line_of_stops_at_the_line_feed() {
    assert_eq!(first_line_of("a\r\nb"), "a");
    assert_eq!(first_line_of("only"), "only");
    assert_eq!(first_line_of(""), "");
    assert_eq!(first_line(b"err: x\nmore"), "err: x");
    assert_eq!(first_line(b"\xffz\n"), "\u{fffd}z");
}

#[test]
fn argv_owns_its_parts() {
    assert_eq!(argv(&["-de", "x.dsn"]), vec!["-de".to_string(), "x.dsn".to_string()]);
    assert!(argv(&[]).is_empty());
}


#[test]
fn stem_row_checks_exit_codes_first() {
    let row = stem_row("b", 0, 1, b"boom\nmore", None, None, "", "", 0);
    assert_eq!(row.stem, "b");
    assert_eq!(row.verdict, "DIFF");
    assert_eq!(row.detail, "exit: jar 0, port 1; port stderr: boom");
}

#[test]
fn stem_row_checks_ses_presence_then_bytes() {
    let row = stem_row("b", 0, 0, b"", Some("x".to_string()), None, "", "", 0);
    assert_eq!(row.detail, "SES presence: jar written, port absent");
    let row = stem_row(
        "b",
        0,
        0,
        b"",
        Some("(ses a\n b)".to_string()),
        Some("(ses a\n c)".to_string()),
        "",
        "",
        0,
    );
    assert_eq!(row.verdict, "DIFF");
    assert_eq!(
        row.detail,
        "SES differs at byte 8 (jar 10 B, port 10 B); jar \"(ses a\\n b)\" port \"(ses a\\n c)\""
    );
}

#[test]
fn stem_row_then_compares_logs_and_matches() {
    let ses = Some("same".to_string());
    let row = stem_row("b", 2, 2, b"", ses.clone(), ses.clone(), "a\nb\n", "a\n", 7);
    assert_eq!(row.detail, "log: jar \"a | b | \" port \"a | \"");
    let row = stem_row("b", 2, 2, b"", ses.clone(), ses, "a\nb\n", "a\nb\n", 7);
    assert_eq!(row.verdict, "MATCH");
    assert_eq!(row.detail, "exit 2, 7 B SES, log 2 lines");
}

#[test]
fn refusal_rows_and_the_tally() {
    assert_eq!(expected_log(&[]), "");
    assert_eq!(expected_log(&["ERROR A", "WARN B"]), "ERROR A\nWARN B\n");
    let ok = refusal_row("no-files", 1, "ERROR A\n", 1, "ERROR A\n");
    assert_eq!(ok.verdict, "MATCH");
    assert_eq!(ok.detail, "exit 1, log [ERROR A]");
    let bad_code = refusal_row("x", 1, "", 0, "");
    assert_eq!(bad_code.detail, "exit: expected 1, port 0");
    let bad_log = refusal_row("x", 0, "A\n", 0, "B\n");
    assert_eq!(bad_log.detail, "log: expected \"A | \" port \"B | \"");
    let hang = Row { stem: "h".to_string(), verdict: "XDIFF", detail: String::new() };
    assert_eq!(tally(&[ok, bad_code, bad_log, hang]), (1, 1));
}

#[test]
fn difference_details_take_the_quoted_pieces() {
    assert_eq!(
        ses_difference(3, 10, 12, "\"a\"", "\"b\""),
        "SES differs at byte 3 (jar 10 B, port 12 B); jar \"a\" port \"b\""
    );
    assert_eq!(log_difference("jar", "\"x\"", "\"y\""), "log: jar \"x\" port \"y\"");
}
