//! Records of permission prompts and tool failures, folded into the
//! coarsest permission rules the evidence supports.
pub mod analysis;
pub mod collapse;
pub mod display;
pub mod error;
pub mod failures;
pub mod family;
pub mod laws;
pub mod limits;
pub mod migrations;
pub mod normalize;
pub mod query;
pub mod report;
pub mod sort;
pub mod sums;
pub mod text;
pub mod types;

pub use analysis::{analyze, Suggestion, Verdict};
pub use error::Error;
pub use failures::FailureStat;
pub use limits::Limits;
pub use query::{PermissionStat, Scope};
pub use types::{Decision, Source};
