//! Reads HTML documents into trees and walks them.
//!
//! - `text`: characters, strings, and trimming of white space.
//! - `grammar`: the HTML grammar, stated over the characters of a document.
//! - `attributes`: the attributes of a tag, a map from names to values.
//! - `parse`: the reader of that grammar, proved to follow it.
//! - `tree`: document trees, their model, and their iterators and searches.
//! - `traversal`: the pre-order and level order of a tree.
//! - `writing`: how a tree is written as HTML, that the grammar reads it
//!   back, and that every tree it reads can be written.
//! - `rusty_soup`: a small tree with stack and queue iterators.
pub mod text;
pub mod grammar;
pub mod attributes;
pub mod parse;
pub mod tree;
pub mod traversal;
pub mod writing;
pub mod rusty_soup;
