//! Core engine for turning a tabular dataset (one ordered x series plus one
//! or more y series) into a 2-D chart layout: typed value series, validated
//! tables, nice numeric scales, affine projection into pixel space, and
//! de-overlapping of axis tick labels.

pub mod args;
pub mod dates;
pub mod graph;
pub mod nature;
pub mod parse;
pub mod projector;
pub mod raw;
pub mod rect;
pub mod scale;
pub mod series;
pub mod tbl;
pub mod unoverlap;
pub mod visibility;
