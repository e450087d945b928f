//! Verified core of a table browser: a search query narrows a very large
//! table to a sparse set of matching row identifiers, and the UI pages
//! through that subset without re-fetching rows it already holds.
//!
//! The library covers the parts with real invariants: compressing sorted
//! identifiers into maximal ranges (`ranges`), resolving a rank window
//! against the compressed ranges (`window`), reconciling the window
//! against a per-table row cache (`rows`, `merge`), page sizing and
//! pagination resets (`pager`), and the per-view orchestration of a page
//! request (`coordinator`). The collaborators around it (the relational
//! engine, the transport, the rendering layer) stay outside.

pub mod coordinator;
pub mod idents;
pub mod merge;
pub mod pager;
pub mod ranges;
pub mod rows;
pub mod schema;
pub mod tbl_search;
pub mod window;
