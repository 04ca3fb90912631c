//! A single-site crawler, a term-frequency inverted index over the crawled
//! pages, and keyword search over that index.

pub mod tokenize;
pub mod crawler;
pub mod index;
pub mod order;
pub mod extract;
pub mod search;
pub mod rank;
