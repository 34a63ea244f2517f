//! Attribution of the bytes of a compiled binary to the source locations that
//! produced them, organized as a hierarchical, queryable size tree.
//!
//! The tree is built by [`node::TreemapNode::record`] (or in one call by
//! [`engine::attribute`]) from the outputs of a location resolver, navigated
//! with [`node::TreemapNode::for_path`], and turned into a bounded-depth wire
//! representation by [`export::export`].

pub mod engine;
pub mod export;
pub mod node;
pub mod paths;
pub mod query;
