//! Near-earth-object feed handling for the asteroid tracker: the feed's
//! dates and request, its cache, the ordering of the objects, and the
//! sortable impact table that shows them.
//!
//! - `calendar`: dates in ISO form and the end of the week-long feed.
//! - `feed`: the request address, the API key, the status check, the error
//!   messages, the per-day cache, and the step function that decides each
//!   move of the fetch from the cache and what just happened.
//! - `neo`: the objects and the assembly of a week of them into one list.
//! - `page`: the headers and rows of the home page's table.
//! - `sorting`: a stable sort over a total preorder.
//! - `table`: cells, sort keys, the sorting state, sorted rows, and the
//!   table state that header clicks step.
//! - `text`: characters, numerals, thousands separators, comparison.

pub mod calendar;
pub mod feed;
pub mod neo;
pub mod page;
pub mod sorting;
pub mod table;
pub mod text;
