use screenmap::ranges::MatchRange;
use screenmap::window::resolve_window;

fn sample_ranges() -> Vec<MatchRange> {
    vec![
        MatchRange { first: 1, last: 3 },
        MatchRange { first: 5, last: 5 },
        MatchRange { first: 6, last: 9 },
    ]
}

#[test]
fn window_straddles_three_ranges() {
    // ranges sized 3, 1, 4; ranks 3..6 are ids 3 (tail of the first
    // range), 5 (the singleton), 6 and 7 (start of the third range)
    let (ids, total) = resolve_window(&sample_ranges(), 3, 7);
    assert_eq!(ids, vec![3, 5, 6, 7]);
    assert_eq!(total, 8);
}

#[test]
fn window_of_three_ranks() {
    let (ids, total) = resolve_window(&sample_ranges(), 3, 6);
    assert_eq!(ids, vec![3, 5, 6]);
    assert_eq!(total, 8);
}

#[test]
fn window_first_page_includes_first_row() {
    let (ids, total) = resolve_window(&sample_ranges(), 1, 4);
    assert_eq!(ids, vec![1, 2, 3]);
    assert_eq!(total, 8);
}

#[test]
fn window_past_the_end_is_empty_but_total_is_kept() {
    let (ids, total) = resolve_window(&sample_ranges(), 100, 110);
    assert!(ids.is_empty());
    assert_eq!(total, 8);
}

#[test]
fn window_clipped_at_last_rank() {
    let (ids, total) = resolve_window(&sample_ranges(), 7, 12);
    assert_eq!(ids, vec![8, 9]);
    assert_eq!(total, 8);
}

#[test]
fn windows_tile_the_match_set() {
    // paging through adjacent windows reconstructs the flattened match
    // set with no gaps and no duplicates
    let mut all: Vec<usize> = Vec::new();
    let mut start: usize = 1;
    loop {
        let (ids, total) = resolve_window(&sample_ranges(), start, start + 3);
        all.extend(ids);
        start += 3;
        if start > total {
            break;
        }
    }
    assert_eq!(all, vec![1, 2, 3, 5, 6, 7, 8, 9]);
}

#[test]
fn window_count_formula() {
    // count == min(end, total + 1) - min(start, total + 1)
    let cases = [(3usize, 7usize, 4usize), (1, 4, 3), (7, 12, 2), (9, 20, 0), (1, 100, 8)];
    for (start, end, expect) in cases {
        let (ids, total) = resolve_window(&sample_ranges(), start, end);
        assert_eq!(total, 8);
        assert_eq!(ids.len(), expect);
        let clip = |x: usize| if x > total + 1 { total + 1 } else { x };
        assert_eq!(ids.len(), clip(end) - clip(start));
    }
}

#[test]
fn window_on_empty_match_set() {
    let (ids, total) = resolve_window(&Vec::new(), 1, 11);
    assert!(ids.is_empty());
    assert_eq!(total, 0);
}
