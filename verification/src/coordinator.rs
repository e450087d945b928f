//! Per-view page coordination.
//!
//! One `PageCoordinator` belongs to one table view. It owns the view's row
//! cache and pagination state, plans each page request (which identifiers
//! the window covers, which of them must be fetched) and completes it
//! (merging cached and fetched rows into the ordered page, then updating
//! the cache). Table names are validated against the live table list
//! before any further work.

use crate::merge::{merge_rows, merge_spec, missing_ids, missing_of, stream_ids, stream_view};
use crate::pager::{page_size_for_extent, PagerEvent, PagerState, ROW_HEIGHT};
use crate::ranges::{ids_as_ints, ranges_disjoint, total_count, MatchRange};
use crate::rows::{absorbed, fetched_ids, Row, RowCache, RowView};
use crate::window::{resolve_window, window_ids};
use vstd::prelude::*;

verus! {

/// Why a page request failed. Each error stays with the view that caused
/// it; no error corrupts the cache or other views.
#[derive(Debug)]
pub enum PageError {
    /// The requested table is not in the live table list; rejected before
    /// any query work.
    UnknownTable,
    /// The match-search or row-fetch collaborator failed; carried verbatim,
    /// not retried.
    FetchFailure(String),
    /// A window identifier was found in neither the fresh fetch nor the
    /// cache: a defect in the two sources' joint coverage, reported with
    /// the offending identifier and both states for diagnosis.
    ReconciliationMismatch { id: usize, fetched: Vec<usize>, cached: Vec<usize> },
}

/// The plan for one page request: the identifiers the window covers, the
/// subset that must be fetched, and the total match count.
pub struct PagePlan {
    pub window_rows: Vec<usize>,
    pub to_fetch: Vec<usize>,
    pub total: usize,
}

/// One completed page: the rows newly fetched this round, the full window
/// in rank order, and the total match count.
pub struct PageResult {
    pub fetched_rows: Vec<(usize, Row)>,
    pub ordered_rows: Vec<Row>,
    pub total: usize,
}

/// The table names as mathematics.
pub open spec fn table_names(tables: Seq<String>) -> Seq<Seq<char>> {
    tables.map_values(|s: String| s@)
}

/// Validates a table name against the live table list. An unknown name is
/// rejected here, before any query work is attempted with it.
pub fn check_table(tables: &Vec<String>, name: &String) -> (r: Result<(), PageError>)
    ensures
        r is Ok <==> table_names(tables@).contains(name@),
        r is Err ==> r->Err_0 is UnknownTable,
{
    let mut i: usize = 0;
    while i < tables.len()
        invariant
            0 <= i <= tables@.len(),
            forall|k: int| 0 <= k < i ==> #[trigger] tables@[k]@ != name@,
        decreases tables@.len() - i,
    {
        if tables[i] == *name {
            proof {
                assert(table_names(tables@)[i as int] == name@);
            }
            return Ok(());
        }
        i = i + 1;
    }
    proof {
        if table_names(tables@).contains(name@) {
            let k = choose|k: int|
                0 <= k < table_names(tables@).len() && table_names(tables@)[k] == name@;
            assert(tables@[k]@ == name@);
        }
    }
    Err(PageError::UnknownTable)
}

/// Completes a page request once the fetched rows have arrived: merges the
/// cached and fetched rows into the window order, and only on success
/// absorbs the fetched rows into the cache. On a reconciliation mismatch
/// the cache is left untouched and the offending identifier is reported
/// together with both sources' identifiers.
pub fn complete_page(
    window: &Vec<usize>,
    fetched: Vec<(usize, Row)>,
    total: usize,
    cache: &mut RowCache,
) -> (r: Result<PageResult, PageError>)
    requires
        old(cache).wf(),
    ensures
        final(cache).wf(),
        final(cache).table_name() == old(cache).table_name(),
        match r {
            Ok(pr) => {
                &&& merge_spec(
                    ids_as_ints(window@),
                    stream_view(fetched@),
                    old(cache).contents(),
                ) == Ok::<Seq<RowView>, int>(pr.ordered_rows@.map_values(|row: Row| row@))
                &&& pr.fetched_rows@ == fetched@
                &&& pr.total == total
                &&& final(cache).contents() == absorbed(old(cache).contents(), fetched@)
            },
            Err(e) => {
                &&& e matches PageError::ReconciliationMismatch { id, fetched: f, cached }
                    && merge_spec(
                    ids_as_ints(window@),
                    stream_view(fetched@),
                    old(cache).contents(),
                ) == Err::<Seq<RowView>, int>(id as int) && ids_as_ints(f@) == fetched_ids(
                    fetched@,
                ) && ids_as_ints(cached@) == old(cache).ids()
                &&& *final(cache) == *old(cache)
            },
        },
{
    match merge_rows(window, &fetched, cache) {
        Ok(rows) => {
            cache.absorb(&fetched);
            Ok(PageResult { fetched_rows: fetched, ordered_rows: rows, total })
        },
        Err(id) => {
            let fetched_diag = stream_ids(&fetched);
            let cached_diag = cache.cached_ids();
            Err(PageError::ReconciliationMismatch {
                id,
                fetched: fetched_diag,
                cached: cached_diag,
            })
        },
    }
}

/// Per-view state: the view's row cache and its pagination state. Each
/// browsing panel owns one coordinator; views share nothing.
pub struct PageCoordinator {
    pub cache: RowCache,
    pub pager: PagerState,
}

impl PageCoordinator {
    /// A fresh view of one table, on its first page.
    pub fn new(table: String, page_size: usize) -> (r: PageCoordinator)
        requires
            page_size >= 1,
        ensures
            r.cache.wf(),
            r.cache.table_name() == table@,
            r.cache.contents().dom() =~= Set::<int>::empty(),
            r.pager.wf(),
            r.pager == (PagerState { page_index: 0, page_size }),
    {
        PageCoordinator { cache: RowCache::new(table), pager: PagerState::new(page_size) }
    }

    /// Switches the view to a table: the cache is cleared unless it is the
    /// same table, and the page index resets to zero either way.
    pub fn set_table(&mut self, table: &String)
        requires
            old(self).cache.wf(),
            old(self).pager.wf(),
        ensures
            final(self).cache.wf(),
            final(self).cache.table_name() == table@,
            table@ == old(self).cache.table_name() ==> final(self).cache.contents() == old(
                self,
            ).cache.contents(),
            table@ != old(self).cache.table_name() ==> final(self).cache.contents() =~= Map::<
                int,
                RowView,
            >::empty(),
            final(self).pager == (PagerState {
                page_index: 0,
                page_size: old(self).pager.page_size,
            }),
    {
        self.cache.retarget(table);
        self.pager = self.pager.step(PagerEvent::TableChanged);
    }

    /// Notes a query change: the match set will be recomputed, so the page
    /// index resets to zero. The cache keeps its rows; they are keyed by
    /// identifier, not by query.
    pub fn set_query(&mut self)
        requires
            old(self).pager.wf(),
        ensures
            final(self).cache == old(self).cache,
            final(self).pager == (PagerState {
                page_index: 0,
                page_size: old(self).pager.page_size,
            }),
    {
        self.pager = self.pager.step(PagerEvent::QueryChanged);
    }

    /// Applies a viewport resize: the page size is derived from the extent
    /// and the assumed row height, and the page index resets to zero.
    pub fn resize(&mut self, extent: i64)
        requires
            old(self).pager.wf(),
        ensures
            final(self).cache == old(self).cache,
            final(self).pager.wf(),
            final(self).pager.page_index == 0,
            extent <= 0 ==> final(self).pager.page_size == 1,
            extent > 0 ==> final(self).pager.page_size as int == vstd::math::max(
                1,
                vstd::math::min(extent as int / ROW_HEIGHT as int, usize::MAX as int),
            ),
    {
        let size = page_size_for_extent(extent, ROW_HEIGHT);
        self.pager = self.pager.step(PagerEvent::Resized(size));
    }

    /// Pages forward.
    pub fn next_page(&mut self)
        requires
            old(self).pager.wf(),
        ensures
            final(self).cache == old(self).cache,
            final(self).pager.page_size == old(self).pager.page_size,
            final(self).pager.page_index as int == vstd::math::min(
                old(self).pager.page_index as int + 1,
                usize::MAX as int,
            ),
    {
        self.pager = self.pager.step(PagerEvent::NextPage);
    }

    /// Pages back, stopping at the first page.
    pub fn prev_page(&mut self)
        requires
            old(self).pager.wf(),
        ensures
            final(self).cache == old(self).cache,
            final(self).pager.page_size == old(self).pager.page_size,
            final(self).pager.page_index as int == vstd::math::max(
                old(self).pager.page_index as int - 1,
                0,
            ),
    {
        self.pager = self.pager.step(PagerEvent::PrevPage);
    }

    /// Plans the current page against a match set: resolves the view's
    /// rank window to identifiers, and diffs them against the cache so
    /// that only genuinely missing rows are fetched.
    pub fn plan(&self, ranges: &Vec<MatchRange>) -> (p: PagePlan)
        requires
            self.cache.wf(),
            self.pager.wf(),
            ranges_disjoint(ranges@),
            total_count(ranges@) <= usize::MAX,
            self.pager.page_index * self.pager.page_size + self.pager.page_size < usize::MAX,
        ensures
            ids_as_ints(p.window_rows@) == window_ids(
                ranges@,
                self.pager.page_index * self.pager.page_size + 1,
                self.pager.page_index * self.pager.page_size + 1 + self.pager.page_size,
            ),
            ids_as_ints(p.to_fetch@) == missing_of(
                ids_as_ints(p.window_rows@),
                self.cache.contents(),
            ),
            p.total == total_count(ranges@),
    {
        let (start, end) = self.pager.window();
        let (window_rows, total) = resolve_window(ranges, start, end);
        let to_fetch = missing_ids(&window_rows, &self.cache);
        PagePlan { window_rows, to_fetch, total }
    }

    /// Completes the current page once the fetched rows have arrived; see
    /// `complete_page`. The pagination state is untouched.
    pub fn complete(&mut self, window: &Vec<usize>, fetched: Vec<(usize, Row)>, total: usize) -> (r:
        Result<PageResult, PageError>)
        requires
            old(self).cache.wf(),
        ensures
            final(self).pager == old(self).pager,
            final(self).cache.wf(),
            final(self).cache.table_name() == old(self).cache.table_name(),
            match r {
                Ok(pr) => {
                    &&& merge_spec(
                        ids_as_ints(window@),
                        stream_view(fetched@),
                        old(self).cache.contents(),
                    ) == Ok::<Seq<RowView>, int>(pr.ordered_rows@.map_values(|row: Row| row@))
                    &&& pr.fetched_rows@ == fetched@
                    &&& pr.total == total
                    &&& final(self).cache.contents() == absorbed(
                        old(self).cache.contents(),
                        fetched@,
                    )
                },
                Err(e) => {
                    &&& e matches PageError::ReconciliationMismatch { id, .. } && merge_spec(
                        ids_as_ints(window@),
                        stream_view(fetched@),
                        old(self).cache.contents(),
                    ) == Err::<Seq<RowView>, int>(id as int)
                    &&& final(self).cache == old(self).cache
                },
            },
    {
        complete_page(window, fetched, total, &mut self.cache)
    }
}

} // verus!
