//! Movie search: tokenization, ranking, filtering, facets and highlighting.

pub mod assets;
pub mod boundary;
pub mod catalog;
pub mod clock;
pub mod facets;
pub mod csvio;
pub mod filter;
pub mod highlight;
pub mod images;
pub mod json;
pub mod keyed;
pub mod laws;
pub mod legacy;
pub mod matching;
pub mod order;
pub mod query;
pub mod rank;
pub mod routes;
pub mod search;
pub mod semantics;
pub mod sort;
pub mod suggest;
pub mod text;
pub mod tools;
pub mod validate;
