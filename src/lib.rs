//! Breadth-first crawler core for one web domain: a flat document model,
//! the header-delimited section extractor, the in-scope link extractor and
//! the crawl frontier.

pub mod text;
pub mod dom;
pub mod page;
pub mod links;
pub mod frontier;
