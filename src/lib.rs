//! Clustering of located crash records into intersection sites, a proximity
//! graph over those sites, and rankings derived from the graph.
//!
//! Coordinates and injury figures are fixed-point integers: a value `v` in
//! the data stands for `v / FIXED_POINT_SCALE` units.

mod analysis;
mod calendar;
mod error;
mod graph;
mod grouping;
mod ranking;
mod records;
mod text;

pub use analysis::{
    degree_frequencies, is_severe, most_common_name, top_n_high_degree_nodes,
    top_severe_intersections, UNKNOWN_LABEL, UNNAMED_INTERSECTION,
};
pub use error::AnalysisError;
pub use graph::{build_crashgraph, compute_degree_distribution, edge_count, within_distance, CrashGraph};
pub use grouping::{group_by_intersections, IntersectionNode};
pub use calendar::{CivilDate, ClockTime};
pub use records::{
    CrashRecord, ProcessedCrashRecord, DATE_FORMAT_ABBREVIATED, DATE_FORMAT_FULL,
    FIXED_POINT_SCALE, MAX_COORD, TIME_FORMAT,
};
