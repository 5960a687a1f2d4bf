//! A solver for the Countdown numbers round: given a list of source numbers
//! and a target, it finds every arithmetic expression that combines a subset
//! of the sources (each used at most once) into the target, pruning symmetric
//! duplicates and any expression with a negative or fractional intermediate
//! value.

pub mod builder;
pub mod cache;
pub mod expr;
pub mod ops;
pub mod render;
pub mod search;

pub use builder::combine;
pub use builder::results;
pub use cache::Cache;
pub use render::get_str;
pub use render::render;
pub use search::bag_solutions;
pub use search::solutions;
pub use search::sub_bags;

pub use expr::CdResult;
pub use expr::Expr;
pub use expr::clone_expr;
pub use ops::Int;
pub use ops::Op;
pub use ops::apply;
pub use ops::priority;
pub use ops::valid;
