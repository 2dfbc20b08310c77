//! Summarization of RDF graphs into class graphs and member graphs.

pub mod algorithm;
pub mod canon;
pub mod error;
pub mod examples;
pub mod graph;
pub mod isomorphism;
pub mod keyed;
pub mod model;
pub mod namespace;
pub mod order;
pub mod relabel;
pub mod rdfio;
pub mod skolem;
pub mod util;

pub use error::{BschemaError, Result};
pub use examples::example_turtle;
pub use graph::RdfGraph;
pub use rdfio::RdfFormat;
pub use relabel::{create_bschema, BschemaResult};
