//! An in-memory tabular ETL and query engine.
//!
//! A session loads a delimited-text table, coerces its columns into typed
//! values under a caller-supplied mapping, and answers queries that filter,
//! group/aggregate or pivot the normalized rows into a paginated result.

pub mod agg;
pub mod etl;
pub mod io_text;
pub mod laws;
pub mod order;
pub mod parse;
pub mod query;
pub mod session;
pub mod table;
pub mod text;
pub mod value;
