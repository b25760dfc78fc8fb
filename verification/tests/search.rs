use quickfind::db::{longest_glob_literal, search_request};
use quickfind::ranking::search_results;
use rusqlite::{params_from_iter, Connection};

fn create_tables(conn: &Connection) -> rusqlite::Result<()> {
    conn.execute(
        "CREATE TABLE IF NOT EXISTS files (
             id INTEGER PRIMARY KEY,
             path TEXT NOT NULL UNIQUE
         )",
        [],
    )?;
    Ok(())
}

fn insert_file(conn: &Connection, path: &str) -> rusqlite::Result<usize> {
    let mut stmt = conn.prepare("INSERT OR IGNORE INTO files (path) VALUES (?1)")?;
    stmt.execute([path])
}

fn search_files(conn: &Connection, term: &str) -> rusqlite::Result<Vec<String>> {
    let Some(request) = search_request(term) else {
        return Ok(vec![]);
    };
    let mut stmt = conn.prepare(&request.sql)?;
    let rows = stmt.query_map(params_from_iter(request.params.iter()), |row| {
        row.get::<_, String>(0)
    })?;
    let mut paths = Vec::new();
    for row in rows {
        paths.push(row?);
    }
    Ok(search_results(&paths, &request.plan))
}

fn setup_conn_with_paths(paths: &[&str]) -> Connection {
    let conn = Connection::open_in_memory().expect("in-memory sqlite should open");
    create_tables(&conn).expect("schema should be created");

    for path in paths {
        insert_file(&conn, path).expect("fixture path should be inserted");
    }

    conn
}

#[test]
fn ext_alias_and_dot_extension_return_same_results() {
    let conn = setup_conn_with_paths(&[
        "/work/src/main.rs",
        "/work/src/lib.rs",
        "/work/README.md",
        "/work/web/App.tsx",
    ]);

    let with_dot = search_files(&conn, ".rs").expect("search should work");
    let with_ext = search_files(&conn, "ext:rs").expect("search should work");

    assert_eq!(with_dot, with_ext);
    assert_eq!(with_dot.len(), 2);
    assert!(with_dot.iter().all(|p| p.ends_with(".rs")));
}

#[test]
fn path_glob_scopes_results() {
    let conn = setup_conn_with_paths(&[
        "/repo/src/ui/App.tsx",
        "/repo/src/core/lib.tsx",
        "/repo/tests/App.tsx",
        "/repo/src/ui/App.rs",
    ]);

    let scoped = search_files(&conn, "/src/*.tsx").expect("search should work");

    assert_eq!(scoped.len(), 2);
    assert!(scoped.contains(&"/repo/src/core/lib.tsx".to_string()));
    assert!(scoped.contains(&"/repo/src/ui/App.tsx".to_string()));
}

#[test]
fn negation_excludes_matching_items() {
    let conn = setup_conn_with_paths(&[
        "/repo/src/parser.rs",
        "/repo/src/parser_test.rs",
        "/repo/src/runtime.rs",
    ]);

    let filtered = search_files(&conn, "parser !test").expect("search should work");

    assert_eq!(filtered, vec!["/repo/src/parser.rs"]);
}

#[test]
fn ranking_prefers_filename_match_over_path_only_match() {
    let conn = setup_conn_with_paths(&[
        "/repo/src/parser.rs",
        "/repo/notes/about_parser_design.txt",
    ]);

    let ranked = search_files(&conn, "parser").expect("search should work");

    assert_eq!(ranked[0], "/repo/src/parser.rs");
}

#[test]
fn search_results_are_capped_for_tui_responsiveness() {
    let conn = Connection::open_in_memory().expect("in-memory sqlite should open");
    create_tables(&conn).expect("schema should be created");

    for i in 0..700 {
        let path = format!("/repo/src/file_{i}.rs");
        insert_file(&conn, &path).expect("fixture path should be inserted");
    }

    let results = search_files(&conn, "ext:rs").expect("search should work");
    assert_eq!(results.len(), 500);
    assert!(results.iter().all(|p| p.ends_with(".rs")));
}

#[test]
fn extension_and_directory_scope_work_together() {
    let conn = setup_conn_with_paths(&[
        "/repo/src/ui/App.tsx",
        "/repo/src/core/lib.tsx",
        "/repo/tests/App.tsx",
        "/repo/src/core/lib.rs",
    ]);

    let results = search_files(&conn, ".tsx /src").expect("search should work");

    assert_eq!(results.len(), 2);
    assert!(results.contains(&"/repo/src/ui/App.tsx".to_string()));
    assert!(results.contains(&"/repo/src/core/lib.tsx".to_string()));
}

#[test]
fn star_wildcard_matches_any_length_before_extension() {
    let conn = setup_conn_with_paths(&[
        "/repo/src/ui/App.tsx",
        "/repo/src/ui/Index.tsx",
        "/repo/src/ui/App.ts",
        "/repo/src/ui/App.tsxx",
    ]);

    let results = search_files(&conn, "*.tsx").expect("search should work");

    assert_eq!(results.len(), 2);
    assert!(results.contains(&"/repo/src/ui/App.tsx".to_string()));
    assert!(results.contains(&"/repo/src/ui/Index.tsx".to_string()));
}

#[test]
fn question_mark_wildcard_matches_single_character_only() {
    let conn = setup_conn_with_paths(&[
        "/repo/src/file.tsx",
        "/repo/src/file.tsa",
        "/repo/src/file.ts",
        "/repo/src/file.tsxx",
    ]);

    let results = search_files(&conn, "*.ts?").expect("search should work");

    assert_eq!(results.len(), 2);
    assert!(results.contains(&"/repo/src/file.tsx".to_string()));
    assert!(results.contains(&"/repo/src/file.tsa".to_string()));
}

#[test]
fn question_mark_works_without_star_prefix() {
    let conn = setup_conn_with_paths(&[
        "/repo/src/file.tsx",
        "/repo/src/file.tsa",
        "/repo/src/file.ts",
        "/repo/src/file.tsxx",
    ]);

    let results = search_files(&conn, ".ts?").expect("search should work");

    assert_eq!(results.len(), 2);
    assert!(results.contains(&"/repo/src/file.tsx".to_string()));
    assert!(results.contains(&"/repo/src/file.tsa".to_string()));
}

#[test]
fn a_query_that_asks_for_nothing_is_not_sent() {
    for term in ["", "   ", "\t\n", "!", "ext:", " ! ext: "] {
        assert!(search_request(term).is_none());
    }
    assert!(search_request("/").is_some());
}

#[test]
fn terms_come_before_endings_and_scopes_in_the_statement() {
    let request = search_request("Parser .rs /src !Test").expect("the query asks for something");
    assert_eq!(
        request.sql,
        "SELECT path FROM files WHERE LOWER(path) LIKE ? AND LOWER(path) NOT LIKE ? LIMIT 4000"
    );
    assert_eq!(request.params, vec!["%parser%", "%test%"]);
}

#[test]
fn endings_without_wildcards_are_alternatives_in_the_statement() {
    let request = search_request(".rs ext:md").expect("the query asks for something");
    assert_eq!(
        request.sql,
        "SELECT path FROM files WHERE (LOWER(path) LIKE ? OR LOWER(path) LIKE ?) LIMIT 4000"
    );
    assert_eq!(request.params, vec!["%.rs", "%.md"]);
}

#[test]
fn a_wildcard_ending_leaves_the_statement_open() {
    for term in [".ts?", ".rs .ts?", ".ts? ext:rs .md"] {
        let request = search_request(term).expect("the query asks for something");
        assert_eq!(request.sql, "SELECT path FROM files LIMIT 4000");
        assert!(request.params.is_empty());
    }
    let request = search_request(".rs .ts? !test").expect("the query asks for something");
    assert_eq!(request.sql, "SELECT path FROM files WHERE LOWER(path) NOT LIKE ? LIMIT 4000");
    assert_eq!(request.params, vec!["%test%"]);
}

#[test]
fn scopes_give_their_longest_fragment_to_the_statement() {
    let request = search_request("/src/*.tsx a?").expect("the query asks for something");
    assert_eq!(
        request.sql,
        "SELECT path FROM files WHERE LOWER(path) LIKE ? LIMIT 4000"
    );
    assert_eq!(request.params, vec!["%.tsx%"]);
}

#[test]
fn the_longest_fragment_of_a_pattern() {
    assert_eq!(longest_glob_literal("/src/*.tsx"), Some(".tsx".to_string()));
    assert_eq!(longest_glob_literal("/Source/*.ts"), Some("source".to_string()));
    assert_eq!(longest_glob_literal("ab*cd"), Some("cd".to_string()));
    assert_eq!(longest_glob_literal("a*b?c"), None);
    assert_eq!(longest_glob_literal("///"), None);
    assert_eq!(longest_glob_literal("é*"), Some("é".to_string()));
}

#[test]
fn the_statement_keeps_every_answer() {
    let paths = [
        "/repo/src/ui/App.tsx",
        "/repo/SRC/core/lib.tsx",
        "/repo/tests/App_test.tsx",
        "/repo/src/ui/App.rs",
        "/Repo/100%/Parser.rs",
    ];
    let conn = setup_conn_with_paths(&paths);
    let all: Vec<String> = paths.iter().map(|p| p.to_string()).collect();
    for term in ["app", ".tsx", "ext:RS", "/src", "/src/*.tsx", "*.ts?", "app !test", "parser", "%", ".rs .ts?", "/repo/**/*.tsx", "**/ui/**", "a**b"] {
        let request = search_request(term).expect("the query asks for something");
        let mut fetched = search_files(&conn, term).expect("search should work");
        let mut direct = search_results(&all, &request.plan);
        fetched.sort();
        direct.sort();
        assert_eq!(fetched, direct);
    }
}

#[test]
fn endings_with_and_without_wildcards_are_alternatives() {
    let conn = setup_conn_with_paths(&["/a/m.rs", "/a/f.tsx", "/a/n.md"]);
    let results = search_files(&conn, ".rs .ts?").expect("search should work");
    assert_eq!(results, vec!["/a/m.rs", "/a/f.tsx"]);
}

#[test]
fn parameters_reach_the_statement_in_order() {
    let conn = setup_conn_with_paths(&["/one/two.rs", "/one/three.rs"]);
    let count: i64 = conn
        .query_row(
            "SELECT COUNT(*) FROM files WHERE LOWER(path) LIKE ?1",
            params_from_iter(search_request("two").expect("a request").params.iter()),
            |row| row.get(0),
        )
        .expect("the statement runs");
    assert_eq!(count, 1);
}
