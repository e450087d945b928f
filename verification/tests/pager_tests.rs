use screenmap::pager::{page_size_for_extent, panel_page_size, PagerEvent, PagerState, ROW_HEIGHT};

#[test]
fn page_size_is_at_least_one() {
    assert_eq!(page_size_for_extent(0, ROW_HEIGHT), 1);
    assert_eq!(page_size_for_extent(-250, ROW_HEIGHT), 1);
    assert_eq!(page_size_for_extent(39, ROW_HEIGHT), 1);
}

#[test]
fn page_size_counts_whole_rows() {
    assert_eq!(page_size_for_extent(400, ROW_HEIGHT), 10);
    assert_eq!(page_size_for_extent(439, ROW_HEIGHT), 10);
    assert_eq!(page_size_for_extent(440, ROW_HEIGHT), 11);
}

#[test]
fn panel_budget_divides_evenly() {
    assert_eq!(panel_page_size(10, 3), 3);
    assert_eq!(panel_page_size(10, 1), 10);
    // a panel with zero allotted rows is legitimate
    assert_eq!(panel_page_size(2, 3), 0);
    assert_eq!(panel_page_size(10, 0), 0);
}

#[test]
fn query_change_resets_page_index() {
    let p = PagerState { page_index: 7, page_size: 10 };
    let p = p.step(PagerEvent::QueryChanged);
    assert_eq!(p, PagerState { page_index: 0, page_size: 10 });
}

#[test]
fn table_change_resets_page_index() {
    let p = PagerState { page_index: 7, page_size: 10 };
    let p = p.step(PagerEvent::TableChanged);
    assert_eq!(p, PagerState { page_index: 0, page_size: 10 });
}

#[test]
fn resize_resets_page_index_and_sets_size() {
    let p = PagerState { page_index: 7, page_size: 10 };
    let p = p.step(PagerEvent::Resized(4));
    assert_eq!(p, PagerState { page_index: 0, page_size: 4 });
}

#[test]
fn paging_moves_the_index_only() {
    let p = PagerState::new(10);
    let p = p.step(PagerEvent::NextPage);
    let p = p.step(PagerEvent::NextPage);
    assert_eq!(p, PagerState { page_index: 2, page_size: 10 });
    let p = p.step(PagerEvent::PrevPage);
    assert_eq!(p, PagerState { page_index: 1, page_size: 10 });
}

#[test]
fn paging_back_stops_at_the_first_page() {
    let p = PagerState::new(10);
    let p = p.step(PagerEvent::PrevPage);
    assert_eq!(p.page_index, 0);
}

#[test]
fn window_is_one_based_and_half_open() {
    let p = PagerState { page_index: 0, page_size: 10 };
    assert_eq!(p.window(), (1, 11));
    let p = PagerState { page_index: 3, page_size: 10 };
    assert_eq!(p.window(), (31, 41));
}
