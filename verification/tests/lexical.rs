use copper_differential::lexical::{lex_less, sort_lines};

#[test]
fn lex_less_orders_like_string_comparison() {
    let words = ["", "a", "ab", "b", "B", "a\u{e9}", "\u{1d11e}", "aa", "a b"];
    for x in words.iter() {
        for y in words.iter() {
            assert_eq!(lex_less(x, y), x < y, "{:?} < {:?}", x, y);
        }
    }
}

#[test]
fn sort_lines_sorts_as_vec_sort_does() {
    let lines: Vec<String> = ["router.b=1", "router.a=2", "fanout=null", "router.a=2", "Z=0", ""]
        .iter()
        .map(|s| s.to_string())
        .collect();
    let mut expected = lines.clone();
    expected.sort();
    assert_eq!(sort_lines(lines), expected);
}

#[test]
fn sort_lines_of_nothing_is_nothing() {
    assert!(sort_lines(Vec::new()).is_empty());
}
