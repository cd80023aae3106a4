//! A registry of workspaces and of the projects nested in them: a tree of
//! named nodes that paths address, with merge-insert, removal, listing,
//! lookup with suggestions and a diagram, and a markup codec for documents.

pub mod codec;
pub mod indent;
pub mod laws;
pub mod markup;
pub mod model;
pub mod project;
pub mod search;
pub mod text;
pub mod workspace;
pub mod xmltree;
