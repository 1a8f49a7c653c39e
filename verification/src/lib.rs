//! Feature audit for a resolved package dependency graph.
//!
//! Given a root package and a materialized view of a resolved dependency
//! graph (which packages each package depends on, which feature names the
//! resolver activated for each package, and which feature names each package
//! declares), the aggregator walks every edge of the graph once and reports,
//! for every dependency, which features ended up enabled (and which consumers
//! enabled them) and which declared features were left disabled.

pub mod aggregate;
pub mod graph;
pub mod identity;
pub mod laws;
pub mod report;
