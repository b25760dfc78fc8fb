use quickfind::query::{parse_query, QueryPlan};
use quickfind::ranking::{search_results, sort, Candidate, MAX_CANDIDATES, MAX_RESULTS};

fn list(items: &[&str]) -> Vec<String> {
    items.iter().map(|s| s.to_string()).collect()
}

#[test]
fn candidates_are_ordered_by_score_then_length_then_text() {
    let found = vec![
        Candidate { path: "/b".to_string(), score: 5 },
        Candidate { path: "/long".to_string(), score: 5 },
        Candidate { path: "/a".to_string(), score: 5 },
        Candidate { path: "/é".to_string(), score: 5 },
        Candidate { path: "/zzzzzz".to_string(), score: 9 },
        Candidate { path: "/".to_string(), score: -1 },
    ];
    let ordered: Vec<String> = sort(found).into_iter().map(|c| c.path).collect();
    assert_eq!(ordered, ["/zzzzzz", "/a", "/b", "/é", "/long", "/"]);
}

#[test]
fn many_candidates_are_ordered_like_the_standard_library_orders_them() {
    let mut found = Vec::new();
    let mut expected = Vec::new();
    let mut state: u32 = 7;
    for i in 0..2000u32 {
        state = state.wrapping_mul(1_103_515_245).wrapping_add(12_345);
        let score = (state >> 16) as i32 % 50;
        let path = format!("/{}", (state >> 8) % 3000 + i % 7);
        found.push(Candidate { path: path.clone(), score });
        expected.push((path, score));
    }
    expected.sort_by(|a, b| {
        b.1.cmp(&a.1).then_with(|| a.0.len().cmp(&b.0.len())).then_with(|| a.0.cmp(&b.0))
    });
    let ordered: Vec<(String, i32)> = sort(found).into_iter().map(|c| (c.path, c.score)).collect();
    assert_eq!(ordered, expected);
}

#[test]
fn only_rows_that_answer_are_results() {
    let rows = list(&["/src/a.rs", "/src/a.md", "/lib/b.rs", "/src/test_a.rs"]);
    let plan = parse_query(".rs /src !test");
    assert_eq!(search_results(&rows, &plan), ["/src/a.rs"]);
}

#[test]
fn the_order_of_the_rows_does_not_matter() {
    let rows = list(&["/x/b", "/x/a", "/x/ab", "/b", "/b"]);
    let mut turned = rows.clone();
    turned.reverse();
    let plan = parse_query("b");
    assert_eq!(search_results(&rows, &plan), search_results(&turned, &plan));
    assert_eq!(search_results(&rows, &plan), ["/b", "/b", "/x/b", "/x/ab"]);
}

#[test]
fn the_best_rows_show() {
    let mut rows: Vec<String> = (0..MAX_RESULTS).map(|i| format!("/deep/path/{i}/x")).collect();
    rows.push("/x".to_string());
    let plan = parse_query("x");
    let results = search_results(&rows, &plan);
    assert_eq!(results.len(), MAX_RESULTS);
    assert_eq!(results[0], "/x");
    assert!(!results.contains(&format!("/deep/path/{}/x", MAX_RESULTS - 1)));
}

#[test]
fn a_search_looks_at_so_many_candidates() {
    let mut rows: Vec<String> = (0..MAX_CANDIDATES).map(|i| format!("/deep/{i}/x")).collect();
    rows.push("/x".to_string());
    let results = search_results(&rows, &parse_query("x"));
    assert_eq!(results.len(), MAX_RESULTS);
    assert!(!results.contains(&"/x".to_string()));
}

#[test]
fn an_empty_plan_is_answered_by_every_row() {
    let rows = list(&["/bb", "/a"]);
    assert_eq!(search_results(&rows, &QueryPlan::default()), ["/a", "/bb"]);
    assert!(search_results(&vec![], &QueryPlan::default()).is_empty());
}

#[test]
fn a_better_match_ranks_first_unless_it_is_much_longer() {
    let plan = parse_query("parser");
    let near = list(&["/parser/x", "/aaaaaaaaaaaaaaaaaaaa/parser"]);
    assert_eq!(search_results(&near, &plan)[0], "/aaaaaaaaaaaaaaaaaaaa/parser");
    let far = format!("/{}/parser", "a".repeat(120));
    let rows = vec![far.clone(), "/parser/x".to_string()];
    assert_eq!(search_results(&rows, &plan), vec!["/parser/x".to_string(), far]);
}
