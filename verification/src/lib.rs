//! Per-layer feature counts for vector data sources: the count table, its
//! CSV codec, the outer-join difference between two tables, and the policy
//! that decides how an input path is interpreted.

pub mod chars;
pub mod cli;
pub mod codec;
pub mod count;
pub mod errors;
pub mod join;
pub mod numbers;
pub mod resolve;

pub use cli::Cli;
pub use count::{DatasetCount, LayerCount, LayerCountV};
pub use errors::{CountError, ErrorKind};
pub use join::{CountDifference, CountDifferenceV, CountDifferenceVec};
pub use resolve::{PathMeta, SourceKind};
