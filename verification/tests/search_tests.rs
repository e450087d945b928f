use fuzzy_matcher::skim::SkimMatcherV2;
use fuzzy_matcher::FuzzyMatcher;
use screenmap::tbl_search::{rank_tables, rank_tables_scored};

fn tables() -> Vec<String> {
    vec![
        "users".to_string(),
        "orders".to_string(),
        "user_events".to_string(),
        "payments".to_string(),
    ]
}

#[test]
fn rank_keeps_only_matching_names() {
    let ranked = rank_tables(&tables(), "user");
    assert_eq!(ranked.len(), 2);
    assert!(ranked.contains(&"users".to_string()));
    assert!(ranked.contains(&"user_events".to_string()));
}

#[test]
fn rank_orders_by_ascending_score() {
    let scored = rank_tables_scored(&tables(), "user");
    for pair in scored.windows(2) {
        assert!(pair[0].1 <= pair[1].1);
    }
}

#[test]
fn rank_agrees_with_the_matcher() {
    // the scored pairs are exactly what fuzzy-matcher itself reports
    let matcher = SkimMatcherV2::default();
    let mut expected: Vec<(String, i64)> = tables()
        .into_iter()
        .filter_map(|s| matcher.fuzzy_match(&s, "ers").map(|x| (s, x)))
        .collect();
    expected.sort_by(|(_, x0), (_, x1)| x0.cmp(x1));
    let mut got = rank_tables_scored(&tables(), "ers");
    // tie order is unspecified; compare as sorted multisets
    expected.sort();
    got.sort();
    assert_eq!(got, expected);
}

#[test]
fn rank_with_no_match_is_empty() {
    let ranked = rank_tables(&tables(), "zzzz");
    assert!(ranked.is_empty());
}
