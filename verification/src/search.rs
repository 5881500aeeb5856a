//! Search over a glass database embedded in a ZIM file.
//!
//! A query becomes a list of counted terms, each term the documents that it matches. The
//! caller's weight function weighs each document by its matches; the documents are then
//! ranked and their paths resolved.

pub mod grouping;
pub mod order_laws;
pub mod query;
pub mod rank;
pub mod search_laws;
pub mod searcher;

pub use self::grouping::{gather, DocMatches, Part};
pub use self::query::{query_terms, tokenize};
pub use self::rank::rank_hits;
pub use self::searcher::{display_title, RankedHit, Searcher, TermDump, TermMatches};
