pub mod alias_map;
pub mod edge;
pub mod error;
pub mod graph;
pub mod index;
pub mod laws;
pub mod node;
pub mod str_map;
pub mod text;

pub use alias_map::AliasMap;
pub use edge::Edge;
pub use error::{Error, GraphResult};
pub use graph::Graph;
pub use index::NodeIndex;
pub use node::Node;
