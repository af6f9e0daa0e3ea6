//! Verified core of the HSK vocabulary clustering tools: partitions, graph
//! structure, streaming GraphML filtering and the integer bookkeeping that the
//! clustering pipelines share.

pub mod agreement;
pub mod assignments;
pub mod community;
pub mod components;
pub mod config;
pub mod csv_table;
pub mod embedding_file;
pub mod experiment;
pub mod graph;
pub mod graphml_document;
pub mod graphml_filter;
pub mod leiden;
pub mod levels;
pub mod metadata;
pub mod neighbors;
pub mod order;
pub mod overlap;
pub mod partition;
pub mod perturb;
pub mod plans;
pub mod provenance;
pub mod random;
pub mod ranking;
pub mod selection;
pub mod tally;
pub mod text;
