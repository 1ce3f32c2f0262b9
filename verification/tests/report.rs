use copper_differential::report::{capped_timeout, ids, integer, json_quote, tagged, timespan_row};

#[test]
fn json_quote_escapes_like_the_routing_probe() {
    assert_eq!(json_quote("a\"b\\c"), "\"a\\\"b\\\\c\"");
    assert_eq!(json_quote("x\ny\rz\t"), "\"x\\ny\\rz\\t\"");
    assert_eq!(json_quote("\u{1}"), "\"\\u0001\"");
    assert_eq!(json_quote("\u{e9}"), "\"\u{e9}\"");
}

#[test]
fn ids_and_integers() {
    assert_eq!(ids(&[]), "[]");
    assert_eq!(ids(&[3, 10, 4000000000]), "[3,10,4000000000]");
    assert_eq!(integer(None), "null");
    assert_eq!(integer(Some(-5)), "-5");
    assert_eq!(tagged("SCORE", "via", "3"), "SCORE via=3");
}

#[test]
fn timeouts_are_capped_at_the_maximum() {
    assert_eq!(capped_timeout(None, 100), None);
    assert_eq!(capped_timeout(Some(5), 100), Some(5));
    assert_eq!(capped_timeout(Some(500), 100), Some(100));
}

#[test]
fn timespan_row_quotes_the_input_and_caps_twice() {
    assert_eq!(
        timespan_row(" 1:00 ", "PT1M", Some(90000), 86400),
        "RAW\t\" 1:00 \"\tCONV\tPT1M\tPARSE\t90000\tCAPPED\t86400\tOFFSET\t86400"
    );
    assert_eq!(
        timespan_row("x", "null", None, 86400),
        "RAW\t\"x\"\tCONV\tnull\tPARSE\tnull\tCAPPED\tnull\tOFFSET\tnull"
    );
}

#[test]
fn json_strings_carry_no_control_characters() {
    let out = json_quote("a\u{1}b\"\n");
    assert_eq!(out, "\"a\\u0001b\\\"\\n\"");
    assert!(out.chars().all(|c| c as u32 >= 0x20));
}
