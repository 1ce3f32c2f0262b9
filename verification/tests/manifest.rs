use copper_differential::job_probe::java_change_file_extension_npes;
use copper_differential::manifest::{
    count, describe_sources, escape, format_instant, java_parent, normalize_line,
    normalize_manifest,
};

#[test]
fn normalize_manifest_drops_resource_usage_and_pins_volatile_keys() {
    let json = "{\n  \"generated_at\": \"2024-01-01T00:00:00Z\",\n  \"resource_usage\": {\n    \"cpu_time_used\": 1.5\n  },\n  \"path\": \"/tmp/x/result.json\"\n}";
    let out = normalize_manifest(json, "/tmp/x");
    assert_eq!(
        out,
        "{\n  \"generated_at\": \"<normalized>\",\n  \"path\": \"<DIR>/result.json\"\n}"
    );
}

#[test]
fn normalize_manifest_keeps_nested_objects_balanced() {
    let json = "{\n  \"resource_usage\": {\n    \"a\": {\n      \"b\": 1\n    }\n  },\n  \"git_sha\": \"abc\"\n}";
    assert_eq!(
        normalize_manifest(json, ""),
        "{\n  \"git_sha\": \"<normalized>\"\n}"
    );
}

#[test]
fn normalize_manifest_inline_resource_usage_is_dropped_alone() {
    let json = "{\n  \"resource_usage\": {},\n  \"x\": 1\n}";
    assert_eq!(normalize_manifest(json, ""), "{\n  \"x\": 1\n}");
}

#[test]
fn normalize_manifest_of_empty_text_is_empty() {
    assert_eq!(normalize_manifest("", "/tmp"), "");
}

#[test]
fn normalize_line_rewrites_first_key_only() {
    assert_eq!(
        normalize_line("    \"duration_seconds\": 1.234,", ""),
        "    \"duration_seconds\": \"<normalized>\","
    );
    assert_eq!(
        normalize_line("\"git_sha\": \"x\" \"generated_at\": \"y\"", ""),
        "\"git_sha\": \"x\" \"generated_at\": \"<normalized>\""
    );
    assert_eq!(normalize_line("a/p/b/p", "/p"), "a<DIR>/b<DIR>");
    assert_eq!(normalize_line("a/p/b", ""), "a/p/b");
}

#[test]
fn count_counts_characters() {
    assert_eq!(count("{{a}{", '{'), 3);
    assert_eq!(count("", '{'), 0);
    assert_eq!(count("ééa", 'é'), 2);
}

#[test]
fn escape_writes_utf16_units() {
    assert_eq!(escape("a b~"), "a b~");
    assert_eq!(escape("\t\u{7f}é"), "\\u0009\\u007f\\u00e9");
    assert_eq!(escape("\u{1f600}"), "\\ud83d\\ude00");
}

#[test]
fn describe_sources_lists_present_sources() {
    assert_eq!(describe_sources(None, None, None), "(nothing)");
    assert_eq!(
        describe_sources(Some(" x"), None, Some("\n")),
        "env:FREEROUTING_GIT_SHA=\" x\"|prop:FREEROUTING_GIT_SHA=\"\\u000a\""
    );
    assert_eq!(
        describe_sources(None, Some("cafebabe"), None),
        "prop:freerouting.git.sha=\"cafebabe\""
    );
}

#[test]
fn java_parent_matches_path_get_parent() {
    assert_eq!(java_parent("result.json"), "null");
    assert_eq!(java_parent("/"), "null");
    assert_eq!(java_parent("/a"), "/");
    assert_eq!(java_parent("/tmp//a/b/c/result.json"), "/tmp/a/b/c");
    assert_eq!(java_parent("a/b/"), "a");
    assert_eq!(java_parent(""), "null");
}

#[test]
fn format_instant_pads_seconds_and_nanos() {
    assert_eq!(format_instant(61, 5), "1970-01-01T00:00:01.000000005Z");
    assert_eq!(format_instant(59, 123456789), "1970-01-01T00:00:59.123456789Z");
}

#[test]
fn manifest_lines_number_and_escape_each_line() {
    let json = "{\n  \"x\": \"\u{e9}\"\n}";
    assert_eq!(
        copper_differential::manifest::manifest_lines("A", json),
        vec![
            "MAN A 000 {",
            "MAN A 001   \"x\": \"\\u00e9\"",
            "MAN A 002 }",
            "MAN A len 15"
        ]
    );
}

#[test]
fn escape_output_is_printable_ascii() {
    for s in ["plain", "\u{0}\u{1f}\u{7f}", "\u{e9}\u{1f600}", "tab\there"] {
        let out = escape(s);
        assert!(out.chars().all(|c| (' '..='~').contains(&c)), "{:?}", out);
    }
}

#[test]
fn counting_adds_over_concatenation() {
    assert_eq!(count("", '{'), 0);
    assert_eq!(count("{x{}", '{'), 2);
    assert_eq!(count(&format!("{}{}", "{a", "{b}{"), '{'), count("{a", '{') + count("{b}{", '{'));
}

#[test]
fn a_null_parent_prints_as_null() {
    for f in ["out", "", "/", "///", "a//"] {
        assert!(java_change_file_extension_npes(f));
        assert_eq!(java_parent(f), "null");
    }
    for (f, parent) in [("dir/out.dsn", "dir"), ("/board.dsn", "/"), ("/tmp/dir.d/", "/tmp"), ("null/x", "null")] {
        assert!(!java_change_file_extension_npes(f));
        assert_eq!(java_parent(f), parent);
    }
}

#[test]
fn manifests_differing_only_in_volatile_parts_normalize_alike() {
    let a = "{\n  \"generated_at\": \"2024-01-01T00:00:00Z\",\n  \"resource_usage\": {\n    \"cpu\": 1.5,\n    \"peak\": {\"x\": 1}\n  },\n  \"git_sha\": \"abc\",\n  \"out\": \"/tmp/a/result.json\"\n}";
    let b = "{\n  \"generated_at\": \"1970-01-01T00:00:07.123Z\",\n  \"resource_usage\": {\n    \"cpu\": 99.0,\n    \"peak\": {\"y\": 2}\n  },\n  \"git_sha\": null,\n  \"out\": \"/tmp/a/result.json\"\n}";
    let na = normalize_manifest(a, "/tmp/a");
    assert_eq!(na, normalize_manifest(b, "/tmp/a"));
    assert_eq!(
        na,
        "{\n  \"generated_at\": \"<normalized>\",\n  \"git_sha\": \"<normalized>\",\n  \"out\": \"<DIR>/result.json\"\n}"
    );
}

#[test]
fn normalizing_twice_changes_nothing() {
    let json = "{\n  \"generated_at\": \"x\",\n  \"resource_usage\": {\n    \"a\": {}\n  },\n  \"path\": \"/tmp/p/q\",\n  \"duration_seconds\": 3.5\n}";
    for prefix in ["", "/tmp/p", "/tmp"] {
        let once = normalize_manifest(json, prefix);
        assert_eq!(normalize_manifest(&once, prefix), once);
    }
    assert_eq!(normalize_manifest("", "/x"), "");
    assert_eq!(normalize_manifest(&normalize_manifest("", "/x"), "/x"), "");
}
