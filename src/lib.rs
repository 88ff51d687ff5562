//! Read-side aggregation over a periodically refreshed episode dataset.
//!
//! - [`period`]: series grouped by the period key of their year and month.
//! - [`episode`]: the newest abstracts of each episode name for a set of series.
//! - [`refresh`]: the decisions of one refresh cycle of the local dataset copy.
//! - [`text`]: string order and period keys.
use vstd::prelude::*;

pub mod text;
pub mod period;
pub mod episode;
pub mod refresh;

verus! {

} // verus!
