//! Query-and-ranking core of a web search engine: a fixed web-document
//! schema, an in-memory segment store with atomic commits and merges, a
//! query parser and compiler, the optic rule language, and top-k
//! collection with snippet generation.

pub mod collect;
pub mod dates;
pub mod defaults;
pub mod index;
pub mod operator;
pub mod optic;
pub mod optic_parse;
pub mod pattern;
pub mod query;
pub mod schema;
pub mod stem;
pub mod term;
pub mod tokenize;
pub mod urls;
pub mod webpage;
