//! Extraction of fields from DataCite metadata records, verified.
//!
//! The core is the schema-aware extraction engine and the decisions of
//! the output pipeline around it:
//!
//! - [`schema`]: which dotted paths denote arrays.
//! - [`trie`]: the path compiler, from field specifications to one shared
//!   traversal plan.
//! - [`extract`]: the traversal engine, from a document and the plan to
//!   its extraction records.
//! - [`filter`]: the admission checks on a document.
//! - [`pipeline`]: what a worker does with each line, and how records
//!   become batches.
//! - [`output`]: the multiplexer of output handles, with its bound on open
//!   handles and its one header for each destination.
//!
//! Around it stand the value types and helpers:
//!
//! - [`json`], [`text`], [`text_set`]: documents and text.
//! - [`ordered_map`], [`counter`], [`ordering`]: counting and ranking.
//! - [`report`]: what a run says at its end.
//!
//! and what the programs around the engine decide:
//!
//! - [`affiliation_records`]: the affiliations of creators and
//!   contributors, row by row.
//! - [`affiliation`]: the rules on affiliation values.
//! - [`aggregate_input`]: reading an export row by row.
//! - [`aggregate`]: the statistics on affiliations.
//! - [`affiliation_report`]: the lists that the statistics give.
//! - [`related`]: the matching of related identifiers.
//!
//! Every function states what it returns over mathematical values:
//! sequences of characters for text, [`json::Json`] for documents,
//! [`trie::Plan`] for compiled plans. Reading files, threads, channels and
//! the writing of output are the caller's.

pub mod affiliation;
pub mod affiliation_records;
pub mod affiliation_report;
pub mod aggregate;
pub mod aggregate_input;
pub mod counter;
pub mod extract;
pub mod filter;
pub mod json;
pub mod ordered_map;
pub mod ordering;
pub mod output;
pub mod pipeline;
pub mod related;
pub mod report;
pub mod schema;
pub mod text;
pub mod text_set;
pub mod trie;
