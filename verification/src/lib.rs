//! An ingestion-pipeline framework: records that carry their lineage, stages
//! that start, transform, route and close them, and a compiler from a textual
//! pipeline description to a branching execution plan.

pub mod description;
pub mod framework;
pub mod junctions;
pub mod render;
pub mod text;
pub mod topology;
pub mod transformers;
