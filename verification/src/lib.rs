//! A behaviour-tree runtime: templates are validated into a flat tree of
//! runtime nodes, which a host ticks once per scheduling step.  Leaves either
//! finish synchronously, wait on a clock, or hand work to an external
//! collaborator that later reports completion through a status report.
pub mod ctx;
pub mod node;
pub mod report;
pub mod schedule;
pub mod status;
pub mod supervisor;
pub mod template;
pub mod tick;
pub mod tree;

pub use status::Status;
