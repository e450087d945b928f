//! Page sizing and pagination state.
//!
//! The page size is derived from the viewport extent and a fixed assumed
//! row height, clamped to at least one row. When several table panels share
//! one budget it is divided evenly. Any change to the query, the table or
//! the page size resets the page index to zero, so a stale index can never
//! point past the end of a new, smaller match set.

use vstd::prelude::*;

verus! {

/// The assumed height of one rendered table row, in viewport units.
pub const ROW_HEIGHT: u64 = 40;

/// Derives a page size from the available viewport extent: the number of
/// whole rows that fit, and never less than one. A zero or negative extent
/// (a collapsed or hidden viewport) still yields one row.
pub fn page_size_for_extent(extent: i64, row_height: u64) -> (r: usize)
    requires
        1 <= row_height,
    ensures
        r >= 1,
        extent <= 0 ==> r == 1,
        extent > 0 ==> r as int == vstd::math::max(
            1,
            vstd::math::min(extent as int / row_height as int, usize::MAX as int),
        ),
{
    if extent <= 0 {
        1
    } else {
        let q: u64 = (extent as u64) / row_height;
        if q < 1 {
            1
        } else if q <= (usize::MAX as u64) {
            q as usize
        } else {
            usize::MAX
        }
    }
}

/// Divides a shared page-size budget evenly among the visible panels.
/// With no panel visible every panel's share is zero rows, which renders
/// as an empty table, not an error.
pub fn panel_page_size(budget: usize, visible_panels: usize) -> (r: usize)
    ensures
        visible_panels == 0 ==> r == 0,
        visible_panels > 0 ==> r == budget / visible_panels,
{
    if visible_panels == 0 {
        0
    } else {
        budget / visible_panels
    }
}

/// An input change that affects pagination.
pub enum PagerEvent {
    /// The search query changed.
    QueryChanged,
    /// The browsed table changed.
    TableChanged,
    /// The viewport was resized; the new page size is carried along.
    Resized(usize),
    /// The user paged forward.
    NextPage,
    /// The user paged back.
    PrevPage,
}

/// Pagination state of one table view: the current page index and the
/// current page size.
#[derive(Clone, Copy, Debug, PartialEq, Eq, Structural)]
pub struct PagerState {
    pub page_index: usize,
    pub page_size: usize,
}

impl PagerState {
    /// A page always holds at least one row.
    pub open spec fn wf(self) -> bool {
        self.page_size >= 1
    }

    /// The initial state: first page, given page size.
    pub fn new(page_size: usize) -> (r: PagerState)
        requires
            page_size >= 1,
        ensures
            r.wf(),
            r.page_index == 0,
            r.page_size == page_size,
    {
        PagerState { page_index: 0, page_size }
    }

    /// Applies one input change. Changing the query, the table or the page
    /// size resets the page index to zero; paging moves the index and
    /// keeps the size.
    pub fn step(self, ev: PagerEvent) -> (r: PagerState)
        requires
            self.wf(),
            ev matches PagerEvent::Resized(s) ==> s >= 1,
        ensures
            r.wf(),
            ev is QueryChanged ==> r == (PagerState { page_index: 0, page_size: self.page_size }),
            ev is TableChanged ==> r == (PagerState { page_index: 0, page_size: self.page_size }),
            ev matches PagerEvent::Resized(s) ==> r == (PagerState { page_index: 0, page_size: s }),
            ev is NextPage ==> r.page_size == self.page_size && r.page_index as int
                == vstd::math::min(self.page_index as int + 1, usize::MAX as int),
            ev is PrevPage ==> r.page_size == self.page_size && r.page_index as int
                == vstd::math::max(self.page_index as int - 1, 0),
    {
        match ev {
            PagerEvent::QueryChanged => PagerState { page_index: 0, page_size: self.page_size },
            PagerEvent::TableChanged => PagerState { page_index: 0, page_size: self.page_size },
            PagerEvent::Resized(s) => PagerState { page_index: 0, page_size: s },
            PagerEvent::NextPage => {
                let idx = if self.page_index < usize::MAX {
                    self.page_index + 1
                } else {
                    self.page_index
                };
                PagerState { page_index: idx, page_size: self.page_size }
            },
            PagerEvent::PrevPage => {
                let idx = if self.page_index > 0 {
                    self.page_index - 1
                } else {
                    0
                };
                PagerState { page_index: idx, page_size: self.page_size }
            },
        }
    }

    /// The 1-based rank window `[start, end)` this state asks for:
    /// `start = page_index * page_size + 1`, `end = start + page_size`.
    pub fn window(self) -> (r: (usize, usize))
        requires
            self.wf(),
            self.page_index * self.page_size + self.page_size < usize::MAX,
        ensures
            r.0 == self.page_index * self.page_size + 1,
            r.1 == r.0 + self.page_size,
            1 <= r.0 <= r.1,
    {
        let start = self.page_index * self.page_size + 1;
        (start, start + self.page_size)
    }
}

} // verus!
