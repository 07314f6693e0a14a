//! stele's verified core: the decisions a terminal markdown viewer makes about
//! untrusted documents, links, directory edits and its image cache.

pub mod text;
pub mod explore;
pub mod path;
pub mod edit;
pub mod rename;
pub mod loader;
pub mod link;
pub mod follow;
pub mod media;
pub mod session;
