//! Sorted row-index sets over a read-only columnar dataset.
//!
//! A [`Filter`] is a strictly increasing list of row indices. Filters are
//! combined with [`Filter::union`] and [`Filter::intersect`] to answer
//! compound queries, and [`Filter::sort_and_unique_by`] collapses runs of rows
//! that belong to one entity down to their best-ranked row.
pub mod collapse;
pub mod filter;
pub mod laws;

pub use filter::Filter;
