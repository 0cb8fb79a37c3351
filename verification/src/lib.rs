//! A feed-aggregation engine: many syndication sources (RSS, Atom and JSON
//! Feed) are fetched by the host, and this library parses, normalizes,
//! deduplicates and orders what came back, with every source's failure
//! contained in its own outcome.

pub mod bytes;
pub mod command;
pub mod coordinator;
pub mod feed;
pub mod fetch;
pub mod format;
pub mod identity;
pub mod item;
pub mod json;
pub mod jsonfeed;
pub mod markup;
pub mod merge;
pub mod normalize;
pub mod order;
pub mod outcome;
pub mod parse;
pub mod pass;
pub mod source;
pub mod text;
pub mod time;
pub mod unit;
