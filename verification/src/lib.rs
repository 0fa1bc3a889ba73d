//! Turns the wiki pages of a project into the sources of a static book:
//! a nested table of contents and page bodies whose image references
//! point at local copies.

pub mod api;
pub mod attachments;
pub mod book;
pub mod convert;
pub mod domain;
pub mod hierarchy;
pub mod summary;
pub mod text;
pub mod wiki;
