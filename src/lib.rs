//! A small full-text search engine: per-document term extraction, a merged
//! in-memory inverted index, a document table, and a query engine that
//! matches bare terms and quoted phrases and ranks documents by term counts.

pub mod text;
pub mod doc_index;
pub mod doc_table;
pub mod mem_index;
pub mod query_result;
pub mod query_token;
pub mod query_processor;
pub mod crawler;
pub mod linked_list;
