//! An arena-backed tree and an HTML document model built on it.
pub mod html;
pub mod tree;
