//! memq: a fuzzy keyword search over a watchlist of Markdown files.
//!
//! `text` turns a document into tokens, `index` keeps one entry per document
//! and reconciles it with freshly loaded files, `fuzzy` scores tokens by edit
//! distance, `query` ranks the matching documents, and `fuzzy_query` puts
//! these behind the `Query` interface. `app_config` holds the watchlist.
use vstd::prelude::*;

pub mod app_config;
pub mod fuzzy;
pub mod text;
pub mod index;
pub mod sync_laws;
pub mod query;
pub mod fuzzy_query;

verus! {

} // verus!
