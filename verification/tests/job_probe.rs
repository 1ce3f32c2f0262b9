use copper_differential::job_probe::{answer, decodes, try_decode,
    decode, hex, java_change_file_extension_npes, norm, normalize_java_path, quote, Ctx,
};

#[test]
fn normalize_java_path_collapses_slashes() {
    assert_eq!(normalize_java_path("/a//b/"), "/a/b");
    assert_eq!(normalize_java_path("a/./b"), "a/./b");
    assert_eq!(normalize_java_path("///"), "/");
    assert_eq!(normalize_java_path(""), "");
    assert_eq!(normalize_java_path("x"), "x");
}

#[test]
fn change_file_extension_npes_without_a_parent() {
    assert!(java_change_file_extension_npes("board.dsn"));
    assert!(java_change_file_extension_npes("/"));
    assert!(!java_change_file_extension_npes("/board.dsn"));
    assert!(!java_change_file_extension_npes("a/b.dsn"));
}

#[test]
fn quote_escapes_controls_and_non_ascii() {
    assert_eq!(quote("a b "), "\"a b \"");
    assert_eq!(quote("\"\\"), "\"\\\"\\\\\"");
    assert_eq!(quote("\n\u{e9}"), "\"\\u000a\\u00e9\"");
    assert_eq!(quote("\u{1f600}"), "\"\\ud83d\\ude00\"");
}

#[test]
fn hex_caps_at_sixty_four_bytes() {
    assert_eq!(hex(&[]), "-");
    assert_eq!(hex(&[0, 15, 255]), "000fff");
    let long = vec![1u8; 70];
    assert_eq!(hex(&long), format!("{}+6", "01".repeat(64)));
}

#[test]
fn norm_replaces_the_three_directories_and_the_basename() {
    let ctx = Ctx {
        cwd: "/home/u/w".to_string(),
        cwd_basename: "w".to_string(),
        fixtures_dir: "/home/u/w/fx".to_string(),
        scratch_dir: "/tmp/s".to_string(),
    };
    assert_eq!(norm(&ctx, "/tmp/s/a and /home/u/w/fx/b in /home/u/w/c"), "<SCRATCH>/a and <FIXTURES>/b in <CWD>/c");
    assert_eq!(norm(&ctx, "w"), "<CWD-BASENAME>");
    assert_eq!(norm(&ctx, "ww"), "ww");
}

#[test]
fn decode_reads_the_three_spec_kinds() {
    assert_eq!(decode("s:a\\nb\\\\"), b"a\nb\\".to_vec());
    assert_eq!(decode("h:0a ff 10"), vec![0x0a, 0xff, 0x10]);
    assert_eq!(decode("z:3"), vec![0, 0, 0]);
    assert_eq!(decode("z:+0"), Vec::<u8>::new());
}

#[test]
fn quote_output_is_printable_ascii() {
    for s in ["", " trailing ", "\u{0}\u{7f}\u{80}", "\u{10ffff}", "\"\\"] {
        let out = quote(s);
        assert!(out.chars().all(|c| (' '..='~').contains(&c)), "{:?}", out);
    }
}

#[test]
fn only_well_formed_byte_specs_decode() {
    assert_eq!(try_decode("s:a\\nb"), Some(b"a\nb".to_vec()));
    assert_eq!(try_decode("h:aced 0005"), Some(vec![0xac, 0xed, 0x00, 0x05]));
    assert_eq!(try_decode("h:fffe2800700 0"), Some(vec![0xff, 0xfe, 0x28, 0x00, 0x70, 0x00]));
    assert_eq!(try_decode("z:3"), Some(vec![0, 0, 0]));
    assert_eq!(try_decode("z:+2"), Some(vec![0, 0]));
    assert!(decodes("h:"));
    assert_eq!(try_decode("h:zz"), None);
    assert_eq!(try_decode("z:"), None);
    assert_eq!(try_decode("z:12a"), None);
    assert_eq!(try_decode("z:99999999999999999999999"), None);
    assert_eq!(try_decode("x:1"), None);
    assert_eq!(try_decode("s"), None);
}

#[test]
fn answers_carry_the_java_side_where_it_differs() {
    assert_eq!(answer(None, "DSN"), "DSN");
    assert_eq!(
        answer(Some("NullPointerException"), "\"<SCRATCH>/out.ses\""),
        "XDIFF\tjava=NullPointerException\trust=\"<SCRATCH>/out.ses\""
    );
}

#[test]
fn normalising_a_path_twice_changes_nothing() {
    for raw in ["//tmp//a/./b/", "a//b", "/", "", "///", "dir.dsn/board", "./x/"] {
        let once = normalize_java_path(raw);
        assert_eq!(normalize_java_path(&once), once);
    }
    assert_eq!(normalize_java_path("//tmp//a/"), "/tmp/a");
}

#[test]
fn hex_reads_back_through_decode() {
    for bytes in [vec![0u8], vec![0xac, 0xed, 0x00, 0x05], (0..64u8).collect::<Vec<u8>>()] {
        let printed = hex(&bytes);
        assert_eq!(try_decode(&format!("h:{printed}")), Some(bytes.clone()));
    }
}

#[test]
fn normalised_paths_are_clean() {
    assert_eq!(normalize_java_path("/tmp//x/"), "/tmp/x");
    assert_eq!(normalize_java_path("///"), "/");
    for raw in ["a//b//", "/x/", "//", "rel/./dir/", ""] {
        let r = normalize_java_path(raw);
        assert!(!r.contains("//"));
        assert!(r == "/" || !r.ends_with('/'));
        assert_eq!(r.starts_with('/'), raw.starts_with('/'));
    }
}
