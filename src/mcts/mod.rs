pub mod environment;
pub mod node;
pub mod tree_search;
pub mod utils;

pub use environment::Environment;
pub use node::Node;
pub use tree_search::{Config, Stats, Tree};
