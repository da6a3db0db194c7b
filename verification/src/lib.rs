//! Bidirectional search for a chain of links between two pages of a remote,
//! lazily revealed link graph.
//!
//! The crate holds the search engine only: path nodes, frontier expansion,
//! visited-set filtering, redirect folding, meeting detection, rendering and
//! the controller that decides which side to expand next.  Fetching pages is
//! left to the caller, who performs the requests this crate asks for and hands
//! the replies back as plain values.

pub mod frontier;
pub mod linker;
pub mod meeting;
pub mod node;
pub mod number;
pub mod pager;
pub mod query;
pub mod redirects;
pub mod render;
pub mod text;
pub mod trusted;
pub mod walk;
