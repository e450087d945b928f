use screenmap::ranges::{compress, full_table_ranges, MatchRange};

#[test]
fn compress_unsorted_with_duplicates() {
    let r = compress(vec![9, 1, 2, 3, 5, 6, 7, 8, 3, 5]);
    assert_eq!(
        r,
        vec![
            MatchRange { first: 1, last: 3 },
            MatchRange { first: 5, last: 9 },
        ]
    );
}

#[test]
fn compress_empty_input() {
    let r = compress(vec![]);
    assert!(r.is_empty());
}

#[test]
fn compress_single_identifier() {
    let r = compress(vec![42]);
    assert_eq!(r, vec![MatchRange { first: 42, last: 42 }]);
}

#[test]
fn compress_merges_adjacent_runs() {
    // 4 and 5 bridge the two runs into one range
    let r = compress(vec![1, 2, 3, 4, 5, 6]);
    assert_eq!(r, vec![MatchRange { first: 1, last: 6 }]);
}

#[test]
fn compress_keeps_gaps() {
    let r = compress(vec![1, 3, 5]);
    assert_eq!(
        r,
        vec![
            MatchRange { first: 1, last: 1 },
            MatchRange { first: 3, last: 3 },
            MatchRange { first: 5, last: 5 },
        ]
    );
}

#[test]
fn compress_counts_distinct_inputs() {
    // duplicates count once: 5 distinct identifiers
    let r = compress(vec![10, 10, 11, 12, 20, 21, 21]);
    let total: usize = r.iter().map(|rg| rg.last - rg.first + 1).sum();
    assert_eq!(total, 5);
}

#[test]
fn full_table_ranges_empty_table() {
    let r = full_table_ranges(0);
    assert!(r.is_empty());
}

#[test]
fn full_table_ranges_covers_all_rows() {
    let r = full_table_ranges(100);
    assert_eq!(r, vec![MatchRange { first: 1, last: 100 }]);
}
