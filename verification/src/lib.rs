//! Link graph model of a wiki: objects, keys, link normalisation and graph analysis.
pub mod links;
pub mod object;

pub use object::NodeRef;
pub use object::{FileObject, KeyView, Node, Object, ObjectKey, WikiPage};
pub mod graph;

pub use graph::LinkGraph;
pub mod display;
pub mod paths;
pub mod walker;
pub mod markdown;
pub mod analysis;
