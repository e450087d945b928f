use screenmap::merge::{merge_rows, missing_ids};
use screenmap::rows::{Row, RowCache};

fn row(text: &str) -> Row {
    Row { cells: vec![("name".to_string(), text.to_string())] }
}

fn cell_text(r: &Row) -> &str {
    &r.cells[0].1
}

#[test]
fn fresh_cache_is_empty() {
    let cache = RowCache::new("proteins".to_string());
    assert!(!cache.contains(1));
    assert!(cache.get(1).is_none());
    assert!(cache.cached_ids().is_empty());
}

#[test]
fn absorb_then_lookup() {
    let mut cache = RowCache::new("proteins".to_string());
    cache.absorb(&vec![(3, row("a")), (6, row("b"))]);
    assert!(cache.contains(3));
    assert!(cache.contains(6));
    assert!(!cache.contains(5));
    assert_eq!(cell_text(cache.get(3).unwrap()), "a");
    assert_eq!(cell_text(cache.get(6).unwrap()), "b");
}

#[test]
fn absorb_never_overwrites() {
    let mut cache = RowCache::new("proteins".to_string());
    cache.absorb(&vec![(3, row("first"))]);
    cache.absorb(&vec![(3, row("second")), (4, row("new"))]);
    assert_eq!(cell_text(cache.get(3).unwrap()), "first");
    assert_eq!(cell_text(cache.get(4).unwrap()), "new");
}

#[test]
fn retarget_same_table_keeps_rows() {
    let mut cache = RowCache::new("proteins".to_string());
    cache.absorb(&vec![(3, row("a"))]);
    cache.retarget(&"proteins".to_string());
    assert!(cache.contains(3));
}

#[test]
fn retarget_other_table_clears_rows() {
    let mut cache = RowCache::new("proteins".to_string());
    cache.absorb(&vec![(3, row("a"))]);
    cache.retarget(&"ligands".to_string());
    assert!(!cache.contains(3));
    assert!(cache.cached_ids().is_empty());
}

#[test]
fn missing_ids_preserve_window_order() {
    let mut cache = RowCache::new("proteins".to_string());
    cache.absorb(&vec![(5, row("cached"))]);
    let window = vec![3, 5, 6];
    assert_eq!(missing_ids(&window, &cache), vec![3, 6]);
}

#[test]
fn merge_interleaves_cache_hit() {
    // cache holds row 5; the window resolves to {3, 5, 6}; the fetch
    // returns rows 3 and 6 ascending, skipping 5; the merged page is in
    // window order with row 5 taken from the cache
    let mut cache = RowCache::new("proteins".to_string());
    cache.absorb(&vec![(5, row("from-cache"))]);
    let window = vec![3, 5, 6];
    let fetched = vec![(3, row("f3")), (6, row("f6"))];
    let merged = merge_rows(&window, &fetched, &cache).unwrap();
    assert_eq!(merged.len(), 3);
    assert_eq!(cell_text(&merged[0]), "f3");
    assert_eq!(cell_text(&merged[1]), "from-cache");
    assert_eq!(cell_text(&merged[2]), "f6");
}

#[test]
fn merge_prefers_fetch_when_both_hold_a_row() {
    let mut cache = RowCache::new("proteins".to_string());
    cache.absorb(&vec![(3, row("stale"))]);
    let window = vec![3];
    let fetched = vec![(3, row("fresh"))];
    let merged = merge_rows(&window, &fetched, &cache).unwrap();
    assert_eq!(cell_text(&merged[0]), "fresh");
}

#[test]
fn merge_reports_uncovered_identifier() {
    let cache = RowCache::new("proteins".to_string());
    let window = vec![3, 5, 6];
    let fetched = vec![(3, row("f3")), (6, row("f6"))];
    // row 5 is in neither the fetch nor the cache
    let r = merge_rows(&window, &fetched, &cache);
    assert_eq!(r.unwrap_err(), 5);
}

#[test]
fn merge_of_empty_window_is_empty() {
    let cache = RowCache::new("proteins".to_string());
    let merged = merge_rows(&Vec::new(), &Vec::new(), &cache).unwrap();
    assert!(merged.is_empty());
}

#[test]
fn row_clone_keeps_contents() {
    let r = Row {
        cells: vec![
            ("a".to_string(), "1".to_string()),
            ("b".to_string(), "2".to_string()),
        ],
    };
    let c = r.clone();
    assert_eq!(c.cells, r.cells);
}
