//! Undirected graphs read from edge-list text, the input side of an
//! eigenvector-centrality tool: node labels are interned in order of first
//! appearance, neighbour lists keep insertion order, and a repeated edge is
//! stored once. Also the text side of the output: Python-style scientific
//! exponents and the error messages.

pub mod edgelist;
pub mod error;
pub mod graph;
pub mod scientific;
mod strings;

pub use edgelist::parse_edgelist;
pub use error::EigenvectorError;
pub use graph::{ids_by_label, Graph};
pub use scientific::python_exponent;
