use quickfind::query::{parse_query, path_matches_query, score_path, QueryPlan};

#[test]
fn parse_ext_aliases() {
    let dot = parse_query(".rs");
    let ext = parse_query("ext:rs");
    assert_eq!(dot.ext_filters, ext.ext_filters);
    assert_eq!(dot.ext_filters, vec![".rs"]);
}

#[test]
fn parse_path_glob() {
    let plan = parse_query("/src/*.tsx");
    assert_eq!(plan.path_globs, vec!["/src/*.tsx"]);
}

#[test]
fn parse_negation() {
    let plan = parse_query("!test");
    assert_eq!(plan.exclude_terms, vec!["test"]);
}

#[test]
fn parse_mixed_query() {
    let plan = parse_query("ext:rs !test /src/*.rs parser");
    assert_eq!(plan.ext_filters, vec![".rs"]);
    assert_eq!(plan.exclude_terms, vec!["test"]);
    assert_eq!(plan.path_globs, vec!["/src/*.rs"]);
    assert_eq!(plan.include_terms, vec!["parser"]);
}

#[test]
fn path_scope_without_wildcard_matches_subdirectories() {
    let plan = parse_query(".tsx /src");
    assert!(path_matches_query("/repo/src/ui/app.tsx", &plan));
    assert!(!path_matches_query("/repo/tests/app.tsx", &plan));
}

#[test]
fn a_lone_mark_asks_for_nothing() {
    assert!(parse_query("! ext:").is_empty());
    assert!(parse_query(" \u{3000}\t").is_empty());
    assert!(!parse_query(".").is_empty());
    assert_eq!(parse_query("."), QueryPlan { include_terms: vec![".".to_string()], ..QueryPlan::default() });
}

#[test]
fn tokens_go_where_they_belong() {
    let plan = parse_query("Main.RS ext:..TAR.gz .Hidden/x a*b [x] !!No ext:a/b");
    assert_eq!(plan.include_terms, vec!["main.rs"]);
    assert_eq!(plan.ext_filters, vec![".tar.gz", ".a/b"]);
    assert_eq!(plan.path_globs, vec![".hidden/x", "a*b", "[x]"]);
    assert_eq!(plan.exclude_terms, vec!["!no"]);
}

#[test]
fn two_queries_combine() {
    let whole = parse_query("parser .rs !test /src");
    let left = parse_query("parser .rs");
    let right = parse_query("!test /src");
    assert_eq!(whole.include_terms, [left.include_terms, right.include_terms].concat());
    assert_eq!(whole.exclude_terms, [left.exclude_terms, right.exclude_terms].concat());
    assert_eq!(whole.ext_filters, [left.ext_filters, right.ext_filters].concat());
    assert_eq!(whole.path_globs, [left.path_globs, right.path_globs].concat());
}

#[test]
fn more_terms_narrow_a_search() {
    let both = parse_query("src /repo/*.rs");
    for path in ["/repo/src/a.rs", "/repo/a.rs", "/other/src/a.rs", "/repo/src/a.md"] {
        assert_eq!(
            path_matches_query(path, &both),
            path_matches_query(path, &parse_query("src"))
                && path_matches_query(path, &parse_query("/repo/*.rs"))
        );
    }
}

#[test]
fn endings_are_alternatives() {
    let plan = parse_query(".rs .md");
    assert!(path_matches_query("/a/b.rs", &plan));
    assert!(path_matches_query("/a/b.md", &plan));
    assert!(!path_matches_query("/a/b.txt", &plan));
}

#[test]
fn a_literal_scope_is_a_part_of_the_path() {
    let plan = parse_query("/src");
    assert!(path_matches_query("/repo/src", &plan));
    assert!(path_matches_query("/repo/src/", &plan));
    assert!(path_matches_query("src/main.rs", &plan));
    assert!(path_matches_query("\\repo\\SRC\\x", &plan));
    assert!(!path_matches_query("/repo/src2/main.rs", &plan));
    assert!(!path_matches_query("/repo/mysrc", &plan));
    let deep = parse_query("src/ui/");
    assert!(path_matches_query("/repo/src/ui/app.rs", &deep));
    assert!(!path_matches_query("/repo/src/x/ui/app.rs", &deep));
    assert!(path_matches_query("anything", &parse_query("///")));
}

#[test]
fn excluded_terms_are_looked_for_in_path_and_name() {
    let plan = parse_query("!SRC");
    assert!(!path_matches_query("/repo/src/a.rs", &plan));
    assert!(path_matches_query("/repo/lib/a.rs", &plan));
    assert!(!path_matches_query("/repo/lib/src.rs", &plan));
}

#[test]
fn a_broken_pattern_matches_nothing() {
    assert!(!path_matches_query("/repo/a", &parse_query("[a")));
    assert!(!path_matches_query("/repo/x.[a", &parse_query(".[a")));
    assert!(path_matches_query("/repo/b", &parse_query("[ab]")));
    assert!(path_matches_query("/repo/x.rs", &parse_query(".[rq]s")));
}

#[test]
fn scores_by_kind_of_match() {
    let plan = parse_query("main.rs");
    assert_eq!(score_path("/a/main.rs", &plan), 120 - 10);
    assert_eq!(score_path("/a/main.rs.bak", &plan), 80 - 14);
    assert_eq!(score_path("/a/xmain.rs", &plan), 50 - 11);
    assert_eq!(score_path("/main.rs/a", &plan), 20 - 10);
    assert_eq!(score_path("/a/b", &plan), -4);
    let scoped = parse_query("main .rs /src *.rs");
    assert_eq!(score_path("/src/Main.rs", &scoped), 80 + 20 + 30 - 12);
    assert_eq!(score_path("/é", &QueryPlan::default()), -3);
}

#[test]
fn non_ascii_letters_are_compared_in_lower_case() {
    let plan = parse_query("ÄPFEL");
    assert_eq!(plan.include_terms, vec!["äpfel"]);
    assert!(path_matches_query("/obst/Äpfel.txt", &plan));
}

#[test]
fn several_words_find_a_song() {
    for query in ["hans mp3", "mp3 hans", "hans .mp3"] {
        let plan = parse_query(query);
        assert!(path_matches_query("/music/Hans Zimmer Time.mp3", &plan));
        assert!(!path_matches_query("/music/Hans Zimmer Time.ogg", &plan));
    }
}

#[test]
fn the_order_of_tokens_does_not_matter() {
    let paths = ["/src/a.rs", "/src/a.md", "/lib/a.rs", "/src/test_a.rs", "/src/b.ts"];
    for path in paths {
        assert_eq!(
            path_matches_query(path, &parse_query("a .rs .md /src !test")),
            path_matches_query(path, &parse_query("!test /src .md a .rs"))
        );
    }
}

#[test]
fn plans_have_their_shape() {
    let query = "Main ! ext: . .rs ext:a/b ext:. /src *.x? !! !a ..b .c/d EXT:q";
    let plan = parse_query(query);
    assert_eq!(plan.include_terms, ["main", ".", "ext:q"]);
    assert_eq!(plan.exclude_terms, ["!", "a"]);
    assert_eq!(plan.ext_filters, [".rs", ".a/b", ".", "..b"]);
    assert_eq!(plan.path_globs, ["/src", "*.x?", ".c/d"]);
    let held = plan.include_terms.len()
        + plan.exclude_terms.len()
        + plan.ext_filters.len()
        + plan.path_globs.len();
    let asking = query.split_whitespace().filter(|t| *t != "!" && *t != "ext:").count();
    assert_eq!(held, asking);
}

#[test]
fn endings_beyond_ascii_are_written_both_ways() {
    for ext in ["é", "É", "ÜB", "RS"] {
        assert_eq!(parse_query(&format!(".{}", ext)), parse_query(&format!("ext:{}", ext)));
    }
    assert_eq!(parse_query("ext:ÜB").ext_filters, vec![".üb"]);
}

#[test]
fn the_case_of_a_path_does_not_matter() {
    for query in ["readme", "ext:md", "/docs", "!src", "/DOCS/*.md read", "*.[M]D", ".txt"] {
        let plan = parse_query(query);
        for (a, b) in [("/Docs/README.md", "/dOCS/readme.MD"), ("/SRC/./a.TXT", "/src/./A.txt"), ("A", "a")] {
            assert_eq!(path_matches_query(a, &plan), path_matches_query(b, &plan));
            assert_eq!(score_path(a, &plan), score_path(b, &plan));
        }
    }
    assert!(path_matches_query("/dOCS/readme.MD", &parse_query("/DOCS/*.md read")));
}

#[test]
fn every_list_of_a_plan_fits() {
    let plan = parse_query("İ !Σ .Ä /Ö/* ext:..É É*");
    assert_eq!(plan.include_terms, vec!["i\u{307}"]);
    assert_eq!(plan.exclude_terms, vec!["σ"]);
    assert_eq!(plan.ext_filters, vec![".ä", ".é"]);
    assert_eq!(plan.path_globs, vec!["/ö/*", "é*"]);
}
