//! Finding, among candidate paths, the one most recently accessed, created or
//! modified: the rules by which a tree is walked into candidates, and the
//! selection of the candidate whose timestamp is greatest.

pub mod method;
pub mod recent;
pub mod select;
pub mod tree;
pub mod usage;
pub mod utils;
pub mod walk;

pub use method::Method;
pub use recent::{Candidate, MostRecently};
pub use select::IterExt;
pub use usage::usage;
pub use utils::IntoStaticStr;
pub use walk::{Entry, TraversalPolicy, Visit, Walker};
