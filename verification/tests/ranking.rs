use finder::rank::fuzzy;
use finder::rank::select_top_k;
use finder::rank::TOP_K;
use finder::score::score;

fn strings(v: &[&str]) -> Vec<String> {
    v.iter().map(|s| s.to_string()).collect()
}

#[test]
fn result_is_bounded_and_sorted() {
    let candidates = strings(&["src/main.rs", "src/lib.rs", "docs/readme.md", "src/rank.rs"]);
    let r = select_top_k(&candidates, "src", 2);
    assert!(r.len() <= 2);
    let mut prev: Option<i64> = None;
    for c in &r {
        let s = score(c, "src").expect("returned candidate must match");
        if let Some(p) = prev {
            assert!(p >= s);
        }
        prev = Some(s);
    }
}

#[test]
fn returned_candidates_all_match() {
    let candidates = strings(&["alpha/beta", "x/y/z.log", "a/report.txt", "zzz"]);
    let r = select_top_k(&candidates, "report", 10);
    for c in &r {
        assert!(score(c, "report").is_some());
    }
    assert_eq!(r, strings(&["a/report.txt"]));
}

#[test]
fn selection_is_idempotent() {
    let candidates = strings(&["a/b/c", "a/c/b", "c/a/b", "b/c/a", "nope"]);
    let r1 = select_top_k(&candidates, "ab", 3);
    let r2 = select_top_k(&candidates, "ab", 3);
    assert_eq!(r1, r2);
}

#[test]
fn empty_query_returns_min_of_k_and_len() {
    let candidates = strings(&["one", "two", "three"]);
    let r = select_top_k(&candidates, "", 10);
    assert_eq!(r.len(), 3);
    let r = select_top_k(&candidates, "", 2);
    // All baseline scores are equal, so the first candidates in order win.
    assert_eq!(r, strings(&["one", "two"]));
    let none: Vec<String> = Vec::new();
    let r = select_top_k(&none, "", 5);
    assert_eq!(r.len(), 0);
}

#[test]
fn tie_break_prefers_earlier_candidate() {
    // Identical candidates score identically; with one slot the first wins.
    let candidates = strings(&["same/path", "same/path"]);
    let r = select_top_k(&candidates, "same", 1);
    assert_eq!(r, strings(&["same/path"]));
    // Three identically scoring candidates, two slots: the first two, in
    // their original order.
    let candidates = strings(&["xa", "ya", "za"]);
    let s0 = score("xa", "a");
    let s1 = score("ya", "a");
    let s2 = score("za", "a");
    assert_eq!(s0, s1);
    assert_eq!(s1, s2);
    let r = select_top_k(&candidates, "a", 2);
    assert_eq!(r, strings(&["xa", "ya"]));
}

#[test]
fn report_query_scenario() {
    let candidates = strings(&["a/b/report.txt", "a/c/report_final.txt", "x/y/z.log"]);
    let r = select_top_k(&candidates, "report", 10);
    assert_eq!(r.len(), 2);
    assert!(r.contains(&"a/b/report.txt".to_string()));
    assert!(r.contains(&"a/c/report_final.txt".to_string()));
    assert!(!r.contains(&"x/y/z.log".to_string()));
    assert!(score("x/y/z.log", "report").is_none());
}

#[test]
fn fuzzy_returns_at_most_ten() {
    let mut candidates: Vec<String> = Vec::new();
    for i in 0..25 {
        candidates.push(format!("dir/file{}", i));
    }
    let r = fuzzy(candidates, "file".to_string());
    assert_eq!(r.len(), TOP_K);
    assert_eq!(r.len(), 10);
}

#[test]
fn scorer_follows_subsequence_rule() {
    assert!(score("abc", "abx").is_none());
    assert!(score("axbycz", "abc").is_some());
    assert!(score("axbycz", "xyz").is_some());
    assert!(score("abc", "").is_some());
    // Lower-case query matches ignoring ASCII case ...
    assert!(score("aBc", "b").is_some());
    // ... but an upper-case letter in the query demands an exact match.
    assert!(score("abc", "B").is_none());
    assert!(score("aBc", "B").is_some());
}

#[test]
fn scorer_is_pure() {
    assert_eq!(score("some/long/path.rs", "slp"), score("some/long/path.rs", "slp"));
    assert_eq!(score("x", "y"), score("x", "y"));
}
