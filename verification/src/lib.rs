//! Mirroring a directory tree of HTML files as the inner markup of their
//! `main` elements.
//!
//! The crate holds the decisions of such a run and leaves the file system to
//! its caller: [`fragment`] turns the text of one document into the fragment
//! that is written for it, [`entry`] holds an entry of a directory listing
//! and the test on its name, [`walk`] keeps the agenda of a whole traversal,
//! and [`mirror`] states what a traversal of a given tree lists and writes.

pub mod entry;
pub mod fragment;
pub mod mirror;
pub mod walk;
