//! Kuchiki: an in-memory document-tree engine.
//!
//! The tree is stored in an arena ([`tree::Tree`]): every node lives in a
//! slot addressed by a [`tree::NodeRef`], and the five tree-links
//! (`parent`, `previous_sibling`, `next_sibling`, `first_child`,
//! `last_child`) are slot indices.  All mutation operations keep the
//! bidirectional links consistent, and the well-formedness of the whole
//! tree is captured by [`tree::inv`] over the abstract view
//! [`tree::TreeView`].

pub mod attributes;
pub mod iter;
pub mod move_cell;
pub mod node_data_ref;
pub mod parser;
pub mod select;
pub mod serializer;
pub mod tree;
