use copper_differential::settings_probe::{
    base_name, java_bool, lines_of, names_nothing, parse_argv, parse_cases, parse_env, push,
    push_slice, resolve_spec, SpecRoot,
};

#[test]
fn lines_of_follows_str_lines() {
    for text in ["", "a", "a\n", "a\r\nb", "a\n\nb\n", "x\ry\n", "\n", "a\r"] {
        let want: Vec<Vec<char>> = text.lines().map(|l| l.chars().collect()).collect();
        assert_eq!(lines_of(text), want, "{:?}", text);
    }
}

#[test]
fn parse_cases_reads_rows_and_skips_comments_and_blanks() {
    let text = "# id\tdsn\n\nc1\tF:a.dsn\t-\tD:r.rules\tK=V\t-ap 3\tsynthetic:2\n   \t \r\nc2\tb.dsn\t-\t-\t-\t-\tdsn\n";
    let cases = parse_cases(text).expect("a well-formed table");
    assert_eq!(cases.len(), 2);
    assert_eq!(cases[0].id, "c1");
    assert_eq!(cases[0].dsn, "F:a.dsn");
    assert_eq!(cases[0].cli_rules, "-");
    assert_eq!(cases[0].scheduler_rules, "D:r.rules");
    assert_eq!(cases[0].env, "K=V");
    assert_eq!(cases[0].argv, "-ap 3");
    assert_eq!(cases[0].board, "synthetic:2");
    assert_eq!(cases[1].id, "c2");
    assert_eq!(cases[1].board, "dsn");
}

#[test]
fn parse_cases_refuses_a_row_without_seven_columns() {
    assert!(parse_cases("c1\ta\tb\n").is_none());
    assert!(parse_cases("c1\t1\t2\t3\t4\t5\t6\t7\n").is_none());
    assert_eq!(parse_cases("").map(|v| v.len()), Some(0));
}

#[test]
fn base_name_strips_the_root_and_the_directories() {
    assert_eq!(base_name("D:rules/x.rules"), "x.rules");
    assert_eq!(base_name("F:a/b/c.dsn"), "c.dsn");
    assert_eq!(base_name("plain.dsn"), "plain.dsn");
    assert_eq!(base_name("dir/"), "");
    assert_eq!(base_name("X:a/b"), "b");
}

#[test]
fn resolve_spec_picks_the_root() {
    assert_eq!(resolve_spec("D:r.rules"), (SpecRoot::Data, "r.rules".to_string()));
    assert_eq!(resolve_spec("F:a.dsn"), (SpecRoot::Fixtures, "a.dsn".to_string()));
    assert_eq!(resolve_spec("a.dsn"), (SpecRoot::Fixtures, "a.dsn".to_string()));
    assert!(names_nothing("-"));
    assert!(!names_nothing("--"));
}

#[test]
fn parse_argv_splits_at_spaces() {
    assert!(parse_argv("-").is_empty());
    assert_eq!(parse_argv("-ap 3 -mp 5"), vec!["-ap", "3", "-mp", "5"]);
    assert_eq!(parse_argv("a  b"), vec!["a", "", "b"]);
}

#[test]
fn parse_env_sorts_keys_and_keeps_the_last_value() {
    let env = parse_env("B=2;A=1;B=3;C=x=y").expect("pairs");
    assert_eq!(
        env,
        vec![
            ("A".to_string(), "1".to_string()),
            ("B".to_string(), "3".to_string()),
            ("C".to_string(), "x=y".to_string())
        ]
    );
    assert_eq!(parse_env("-"), Some(Vec::new()));
    assert_eq!(parse_env("A=1;broken"), None);
}

#[test]
fn push_and_push_slice_write_path_value_lines() {
    let mut lines = Vec::new();
    push(&mut lines, "router.maxPasses", Some("100"));
    push(&mut lines, "router.fanout", None);
    push_slice(&mut lines, "layers", None);
    push_slice(&mut lines, "costs", Some(&vec!["1".to_string(), "2".to_string()]));
    assert_eq!(
        lines,
        vec![
            "router.maxPasses=100",
            "router.fanout=null",
            "layers=null",
            "costs.length=2",
            "costs[0]=1",
            "costs[1]=2"
        ]
    );
    assert_eq!(java_bool(true), "true");
    assert_eq!(java_bool(false), "false");
}

#[test]
fn argv_rejoins_to_its_spec() {
    for spec in ["a", "-ap 3 -mp 5", " lead", "trail ", "a  b"] {
        assert_eq!(parse_argv(spec).join(" "), spec);
    }
}
