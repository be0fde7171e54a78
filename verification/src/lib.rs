//! Attribute-driven parameter lookup: canonical match keys, tiered override
//! tables with merge or replace composition, and the read-only store that
//! groups parameter documents by collection.

pub mod api;
pub mod attrs;
pub mod collection;
pub mod config;
pub mod document;
pub mod handlers;
pub mod laws;
pub mod loader;
pub mod models;
pub mod normalize;
pub mod order;
pub mod seqs;
pub mod table;
pub mod text;
pub mod text_laws;
pub mod value;
