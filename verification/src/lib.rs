//! Contribution statistics for a version-control history.
//!
//! The history reader hands over text. [`normalize`] reads it into counts,
//! series and raw records; [`alias`] maps each author identity to the
//! canonical identity that it is reported under; [`aggregate`] and [`stats`]
//! fold contributions into per-contributor totals; [`series`] holds counts per
//! date and [`bucket`] re-groups them into periods; [`rank`] orders the
//! contributors by a metric; [`render`] and [`chart`] prepare what is shown.
//!
//! Sums are exact. Where a sum would not fit in a `u64`, the function that
//! would hold it says so in its result and leaves its data as it was.

pub mod aggregate;
pub mod alias;
pub mod bucket;
pub mod chart;
pub mod date;
pub mod lines;
pub mod normalize;
pub mod rank;
pub mod render;
pub mod series;
pub mod stats;
pub mod text;
