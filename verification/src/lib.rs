//! Verified core of the Moonvy design-extraction server: URL and id
//! handling, catalog search, design-tree queries and diffing, page-listing
//! decisions and image header probing.

pub mod text;
pub mod api;
pub mod ids;
pub mod image_probe;
pub mod genome;
pub mod tree;
pub mod assign;
pub mod diff;
pub mod json;
pub mod catalog;
pub mod tools;
pub mod server;
pub mod listing;
pub mod layers;
pub mod asset;
pub mod prompts;
pub mod shape;
