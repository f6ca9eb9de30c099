//! Series of energy-system results at a chosen time resolution.
//!
//! The results of an optimisation come as values on blocks of timesteps inside
//! representative periods, each of which stands for several periods of a year.
//! This library turns them into one series per group and year on a single time
//! axis, resampled at windows of a chosen width, optionally filtered by category and
//! broken down into buckets of a category hierarchy.
//!
//! There are two ways to the series. The engine computes it from rows in memory:
//! `compaction`, `intervals`, `weighting`, `timeline`, `combine` and `resample` are
//! its stages, `category_filter` and `breakdown` prepare the rows, and `pipeline`
//! runs them in order. The query builders write the computation as a query for a
//! database: `query_builder` holds the templates, and one module per subject
//! builds the queries of that subject. `connection` keeps the registry of open
//! datasets, and `documentation` the list of documentation files that may be served.
//!
//! What is proved of the engine is proved of the engine alone: a query is a text
//! whose meaning is the database's, and its contract says which text it is.
//! The two ways are meant to agree, and differ in this. The engine counts in exact
//! fractions, the database in floating point. The engine names a bucket by its
//! place in the breakdown, the query by the name of its node. Where the
//! representative periods of one period disagree in their hours, the engine takes
//! the last one listed and the query the longest. The query that unites two series
//! joins them on a single group column.
//!
//! What the stages guarantee is proved in `compaction` (maximality), `coverage`,
//! `local_coverage` and `period_hours` (coverage of the time axis), `identity`
//! (resampling at the width of the pieces), `category_filter` and `provenance`
//! (filter exclusivity) and `numbers` (every value is a number); `pipeline` states
//! them of the whole computation. Conservation under breakdown is proved block by
//! block in `breakdown`, and from the rows to the answer in `conservation`,
//! `shares_total`, `axis_offsets`, `window_totals` and `answer_totals`.
pub mod answer_totals;
pub mod arrange;
pub mod axis_offsets;
pub mod breakdown;
pub mod capacity;
pub mod category_filter;
pub mod combine;
pub mod compaction;
pub mod conservation;
pub mod connection;
pub mod coverage;
pub mod documentation;
pub mod gather;
pub mod hierarchy;
pub mod identity;
pub mod import_export;
pub mod installed_capacity;
pub mod intervals;
pub mod local_coverage;
pub mod metadata;
pub mod model;
pub mod numbers;
pub mod period_hours;
pub mod pipeline;
pub mod production_price;
pub mod provenance;
pub mod query_builder;
pub mod record_stream;
pub mod ratio;
pub mod resample;
pub mod residual_load;
pub mod series;
pub mod shares_total;
pub mod sorting;
pub mod storage_price;
pub mod system_cost;
pub mod text;
pub mod timeline;
pub mod transport_price;
pub mod weighting;
pub mod window_totals;
