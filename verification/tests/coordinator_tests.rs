use screenmap::coordinator::{check_table, complete_page, PageCoordinator, PageError};
use screenmap::ranges::full_table_ranges;
use screenmap::rows::{Row, RowCache};

fn row(text: &str) -> Row {
    Row { cells: vec![("name".to_string(), text.to_string())] }
}

fn tables() -> Vec<String> {
    vec!["proteins".to_string(), "ligands".to_string()]
}

#[test]
fn known_table_is_accepted() {
    assert!(check_table(&tables(), &"ligands".to_string()).is_ok());
}

#[test]
fn unknown_table_is_rejected_before_any_work() {
    let r = check_table(&tables(), &"proteins; DROP TABLE".to_string());
    assert!(matches!(r, Err(PageError::UnknownTable)));
}

#[test]
fn empty_query_on_empty_table_gives_empty_page() {
    // the empty query over a table with 0 rows: an empty match set, a
    // total of 0, and an empty page rather than an error
    let ranges = full_table_ranges(0);
    assert!(ranges.is_empty());
    let mut view = PageCoordinator::new("proteins".to_string(), 10);
    let plan = view.plan(&ranges);
    assert!(plan.window_rows.is_empty());
    assert!(plan.to_fetch.is_empty());
    assert_eq!(plan.total, 0);
    let page = view.complete(&plan.window_rows, Vec::new(), plan.total).unwrap();
    assert!(page.ordered_rows.is_empty());
    assert_eq!(page.total, 0);
}

#[test]
fn second_page_fetches_only_missing_rows() {
    let ranges = full_table_ranges(25);
    let mut view = PageCoordinator::new("proteins".to_string(), 10);
    // first page: rows 1..=10, nothing cached yet
    let plan = view.plan(&ranges);
    assert_eq!(plan.window_rows, (1..=10).collect::<Vec<usize>>());
    assert_eq!(plan.to_fetch, plan.window_rows);
    assert_eq!(plan.total, 25);
    let fetched: Vec<(usize, Row)> = plan.to_fetch.iter().map(|&i| (i, row("x"))).collect();
    view.complete(&plan.window_rows, fetched, plan.total).unwrap();
    // revisiting the same page: everything is cached, nothing to fetch
    let plan = view.plan(&ranges);
    assert_eq!(plan.window_rows, (1..=10).collect::<Vec<usize>>());
    assert!(plan.to_fetch.is_empty());
    let page = view.complete(&plan.window_rows, Vec::new(), plan.total).unwrap();
    assert_eq!(page.ordered_rows.len(), 10);
}

#[test]
fn completed_page_interleaves_cache_and_fetch() {
    let mut cache = RowCache::new("proteins".to_string());
    cache.absorb(&vec![(5, row("from-cache"))]);
    let window = vec![3, 5, 6];
    let fetched = vec![(3, row("f3")), (6, row("f6"))];
    let page = complete_page(&window, fetched, 8, &mut cache).unwrap();
    assert_eq!(page.total, 8);
    let texts: Vec<&str> = page.ordered_rows.iter().map(|r| r.cells[0].1.as_str()).collect();
    assert_eq!(texts, vec!["f3", "from-cache", "f6"]);
    // the fresh rows were absorbed afterwards
    assert!(cache.contains(3));
    assert!(cache.contains(6));
}

#[test]
fn reconciliation_mismatch_reports_and_keeps_cache() {
    let mut cache = RowCache::new("proteins".to_string());
    cache.absorb(&vec![(5, row("from-cache"))]);
    let window = vec![3, 5, 6];
    // the fetch is missing row 6
    let fetched = vec![(3, row("f3"))];
    let r = complete_page(&window, fetched, 8, &mut cache);
    match r {
        Err(PageError::ReconciliationMismatch { id, fetched, cached }) => {
            assert_eq!(id, 6);
            assert_eq!(fetched, vec![3]);
            assert_eq!(cached, vec![5]);
        },
        _ => panic!("expected a reconciliation mismatch"),
    }
    // the failed round left the cache untouched
    assert!(!cache.contains(3));
    assert!(cache.contains(5));
}

#[test]
fn view_events_reset_pagination() {
    let mut view = PageCoordinator::new("proteins".to_string(), 10);
    view.next_page();
    view.next_page();
    assert_eq!(view.pager.page_index, 2);
    view.set_query();
    assert_eq!(view.pager.page_index, 0);
    view.next_page();
    view.resize(200);
    assert_eq!(view.pager.page_index, 0);
    assert_eq!(view.pager.page_size, 5);
    view.next_page();
    view.set_table(&"ligands".to_string());
    assert_eq!(view.pager.page_index, 0);
}

#[test]
fn switching_tables_clears_the_view_cache() {
    let mut view = PageCoordinator::new("proteins".to_string(), 10);
    let window = vec![1];
    view.complete(&window, vec![(1, row("p1"))], 1).unwrap();
    view.set_table(&"ligands".to_string());
    // row 1 of "proteins" must not answer for row 1 of "ligands"
    let ranges = full_table_ranges(1);
    let plan = view.plan(&ranges);
    assert_eq!(plan.to_fetch, vec![1]);
}
