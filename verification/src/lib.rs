//! Streaming evaluation of `agg(range_func(selector))` over hash-ordered metrics
//! files: each hash band merges its hash-ordered file chains one series at a
//! time; a series is folded into the accumulator of its group and dropped, so
//! the sample matrix is never materialized.
pub mod band_laws;
pub mod band_plan;
pub mod bands;
pub mod batch;
pub mod columns;
pub mod cursor;
pub mod fold;
pub mod group_key;
pub mod groups;
pub mod layout_laws;
pub mod merge;
pub mod merge_laws;
pub mod outcome;
pub mod plan;
pub mod result_laws;
pub mod series;
pub mod series_laws;
pub mod shift_laws;
pub mod sig_index;
pub mod step_laws;
pub mod text;
