use copper_differential::stats_probe::{decode, esc, hex, int_text, src_of, string_field};

#[test]
fn esc_writes_two_character_escapes() {
    assert_eq!(esc("a\\b\tc\rd\ne"), "a\\\\b\\tc\\rd\\ne");
    assert_eq!(esc("\u{1}"), "\u{1}");
}

#[test]
fn string_field_quotes_or_writes_null() {
    assert_eq!(string_field(""), "<null>");
    assert_eq!(string_field("mil\t"), "\"mil\\t\"");
    assert_eq!(int_text(None), "<null>");
    assert_eq!(int_text(Some(-12)), "-12");
}

#[test]
fn hex_writes_every_byte() {
    assert_eq!(hex(&[]), "");
    assert_eq!(hex(&[0xab, 0x01]), "ab01");
}

#[test]
fn src_of_prefers_printable_text() {
    assert_eq!(src_of(b"pcb\tx\n"), "txt:pcb\\tx\\n");
    assert_eq!(src_of(b"a\x01"), "hex:6101");
    assert_eq!(src_of(b"\xff"), "hex:ff");
    assert_eq!(src_of(b""), "txt:");
}

#[test]
fn decode_reads_text_and_hex_specs() {
    assert_eq!(decode("s:h\u{e9}"), "h\u{e9}".as_bytes().to_vec());
    assert_eq!(decode("h:00ffz!"), vec![0x00, 0xff, b'z', b'!']);
    assert_eq!(decode("h:abc"), vec![0xab, b'c']);
}

#[test]
fn escaped_fields_stay_on_one_line() {
    let out = esc("a\tb\r\nc\\d");
    assert_eq!(out, "a\\tb\\r\\nc\\\\d");
    assert!(!out.contains('\t') && !out.contains('\n') && !out.contains('\r'));
}

fn read_escapes_back(s: &str) -> String {
    let mut out = String::new();
    let mut chars = s.chars();
    while let Some(c) = chars.next() {
        if c == '\\' {
            match chars.next() {
                Some('t') => out.push('\t'),
                Some('r') => out.push('\r'),
                Some('n') => out.push('\n'),
                Some(other) => out.push(other),
                None => out.push('\\'),
            }
        } else {
            out.push(c);
        }
    }
    out
}

#[test]
fn escapes_read_back_to_the_field() {
    assert_eq!(esc("a\tb\\c\n"), "a\\tb\\\\c\\n");
    for field in ["a\tb\\c\n", "\\\\t", "plain", "", "\r\n\t\\"] {
        assert_eq!(read_escapes_back(&esc(field)), field);
    }
}
